//! The model picker's models and selection: each model's id, label,
//! description and context size, which one is chosen, whether the dropdown
//! is open, and how the choice survives the list being replaced. Prices are
//! the host's, as they are fractional.

use vstd::prelude::*;

verus! {

/// One selectable model.
pub struct AIModel {
    /// What the API is called with.
    pub id: String,
    /// What the user reads.
    pub label: String,
    /// One line on what it's for.
    pub description: Option<String>,
    /// Context window in tokens, 0 when unknown.
    pub context: u64,
}

impl AIModel {
    /// A model with no description and an unknown context size.
    pub fn new(id: &str, label: &str) -> (r: AIModel)
        ensures
            r.id@ == id@,
            r.label@ == label@,
            r.description is None,
            r.context == 0,
    {
        AIModel { id: id.to_string(), label: label.to_string(), description: None, context: 0 }
    }

    pub fn description(self, description: &str) -> (r: AIModel)
        ensures
            r.id == self.id,
            r.label == self.label,
            r.description matches Some(d) && d@ == description@,
            r.context == self.context,
    {
        AIModel { description: Some(description.to_string()), ..self }
    }

    pub fn context(self, tokens: u64) -> (r: AIModel)
        ensures
            r == (AIModel { context: tokens, ..self }),
    {
        AIModel { context: tokens, ..self }
    }
}

/// The position of the first id reading `id`, or `-1`.
pub open spec fn position_of(ids: Seq<Seq<char>>, id: Seq<char>) -> int
    decreases ids.len(),
{
    if ids.len() == 0 {
        -1
    } else if ids[0] == id {
        0
    } else {
        let r = position_of(ids.drop_first(), id);
        if r < 0 { -1 } else { r + 1 }
    }
}

proof fn lemma_position_of(ids: Seq<Seq<char>>, id: Seq<char>, i: int)
    requires
        0 <= i <= ids.len(),
        forall|j: int| 0 <= j < i ==> #[trigger] ids[j] != id,
        i < ids.len() ==> ids[i] == id,
    ensures
        position_of(ids, id) == if i < ids.len() { i } else { -1 },
    decreases i,
{
    if i > 0 {
        let t = ids.drop_first();
        assert forall|j: int| 0 <= j < i - 1 implies #[trigger] t[j] != id by {
            assert(t[j] == ids[j + 1]);
        }
        assert(ids[0] != id);
        lemma_position_of(t, id, i - 1);
    }
}

/// Where `id` sits in `ids`.
fn find_id(ids: &Vec<AIModel>, id: &str) -> (r: Option<usize>)
    ensures
        match r {
            Some(i) => i == position_of(ids_of(ids@), id@) && i < ids@.len(),
            None => position_of(ids_of(ids@), id@) < 0,
        },
{
    let target = id.to_string();
    let mut i: usize = 0;
    while i < ids.len()
        invariant
            i <= ids@.len(),
            target@ == id@,
            forall|j: int| 0 <= j < i ==> #[trigger] ids@[j].id@ != id@,
        decreases ids@.len() - i,
    {
        let same = ids[i].id == target;
        if same {
            proof {
                lemma_position_of(ids_of(ids@), id@, i as int);
            }
            return Some(i);
        }
        i = i + 1;
    }
    proof {
        lemma_position_of(ids_of(ids@), id@, i as int);
    }
    None
}

/// The picker's state, by value.
pub struct ChoiceView {
    pub ids: Seq<Seq<char>>,
    pub selected: nat,
    pub open: bool,
}

/// The ids of a model list.
pub open spec fn ids_of(models: Seq<AIModel>) -> Seq<Seq<char>> {
    models.map_values(|m: AIModel| m.id@)
}

/// A dropdown's choice over a list of models.
pub struct ModelChoice {
    ids: Vec<AIModel>,
    selected: usize,
    open: bool,
}

impl View for ModelChoice {
    type V = ChoiceView;

    closed spec fn view(&self) -> ChoiceView {
        ChoiceView { ids: ids_of(self.ids@), selected: self.selected as nat, open: self.open }
    }
}

impl ModelChoice {
    /// The models on offer.
    pub closed spec fn listed(&self) -> Seq<AIModel> {
        self.ids@
    }

    /// The models on offer, in order.
    pub fn model_list(&self) -> (r: &Vec<AIModel>)
        ensures
            r@ == self.listed(),
            ids_of(r@) == self@.ids,
    {
        &self.ids
    }

    /// The chosen model, or `None` when the list is empty or the position is
    /// stale: the picker hands back the whole model, not an index to look
    /// up.
    pub fn selected_model(&self) -> (r: Option<&AIModel>)
        ensures
            self@.selected < self.listed().len() ==> r == Some(&self.listed()[self@.selected as int]),
            self@.selected >= self.listed().len() ==> r is None,
    {
        if self.selected < self.ids.len() {
            Some(&self.ids[self.selected])
        } else {
            None
        }
    }

    /// No models, the first slot selected, closed.
    pub fn new() -> (r: ModelChoice)
        ensures
            r@.ids.len() == 0,
            r@.selected == 0,
            !r@.open,
    {
        ModelChoice { ids: Vec::new(), selected: 0, open: false }
    }

    /// The list to choose from; the selected slot stays where it was.
    pub fn models(self, ids: Vec<AIModel>) -> (r: ModelChoice)
        ensures
            r@ == (ChoiceView { ids: ids_of(ids@), ..self@ }),
            r.listed() == ids@,
    {
        ModelChoice { ids, ..self }
    }

    /// Select by model id, which is what a saved preference holds; an
    /// unknown id changes nothing.
    pub fn selected_id(self, id: &str) -> (r: ModelChoice)
        ensures
            r@ == if position_of(self@.ids, id@) >= 0 {
                ChoiceView { selected: position_of(self@.ids, id@) as nat, ..self@ }
            } else {
                self@
            },
            r.listed() == self.listed(),
    {
        let mut r = self;
        match find_id(&r.ids, id) {
            Some(i) => {
                r.selected = i;
            },
            None => {},
        }
        r
    }

    /// The chosen position, or `None` when the list is empty or the position
    /// is stale.
    pub fn selection(&self) -> (r: Option<usize>)
        ensures
            r == if self@.selected < self@.ids.len() {
                Some(self@.selected as usize)
            } else {
                None::<usize>
            },
    {
        if self.selected < self.ids.len() {
            Some(self.selected)
        } else {
            None
        }
    }

    /// Choose the model at `index` and close the dropdown; returns whether
    /// there is one there. Nothing changes when there is not.
    pub fn pick(&mut self, index: usize) -> (r: bool)
        ensures
            r == (index < old(self)@.ids.len()),
            r ==> final(self)@ == (ChoiceView { selected: index as nat, open: false, ..old(self)@ }),
            !r ==> final(self)@ == old(self)@,
            final(self).listed() == old(self).listed(),
    {
        if index < self.ids.len() {
            self.selected = index;
            self.open = false;
            true
        } else {
            false
        }
    }

    /// Choose by id at runtime; returns the position chosen, or `None` when
    /// the id is not in the list.
    pub fn select_id(&mut self, id: &str) -> (r: Option<usize>)
        ensures
            r == if position_of(old(self)@.ids, id@) >= 0 {
                Some(position_of(old(self)@.ids, id@) as usize)
            } else {
                None::<usize>
            },
            r matches Some(i) ==> final(self)@ == (ChoiceView { selected: i as nat, open: false, ..old(self)@ }),
            r is None ==> final(self)@ == old(self)@,
            final(self).listed() == old(self).listed(),
    {
        match find_id(&self.ids, id) {
            Some(i) => {
                self.pick(i);
                Some(i)
            },
            None => None,
        }
    }

    /// Replace the list, keeping the selection on the same model id when it
    /// survives the swap, else on the first.
    pub fn set_models(&mut self, ids: Vec<AIModel>)
        ensures
            final(self).listed() == ids@,
            final(self)@.ids == ids_of(ids@),
            final(self)@.open == old(self)@.open,
            final(self)@.selected == if old(self)@.selected < old(self)@.ids.len() && position_of(
                ids_of(ids@),
                old(self)@.ids[old(self)@.selected as int],
            ) >= 0 {
                position_of(ids_of(ids@), old(self)@.ids[old(self)@.selected as int]) as nat
            } else {
                0nat
            },
    {
        let kept = match self.selection() {
            Some(i) => {
                assert(old(self)@.ids[i as int] == self.ids@[i as int].id@);
                find_id(&ids, self.ids[i].id.as_str())
            },
            None => None,
        };
        self.ids = ids;
        self.selected = match kept {
            Some(i) => i,
            None => 0,
        };
    }

    /// Whether the dropdown is open.
    pub fn is_open(&self) -> (r: bool)
        ensures
            r == self@.open,
    {
        self.open
    }

    /// Open the dropdown, or close it.
    pub fn toggle_open(&mut self)
        ensures
            final(self)@ == (ChoiceView { open: !old(self)@.open, ..old(self)@ }),
            final(self).listed() == old(self).listed(),
    {
        self.open = !self.open;
    }
}

impl Default for ModelChoice {
    fn default() -> (r: ModelChoice)
        ensures
            r@.ids.len() == 0,
            r@.selected == 0,
            !r@.open,
    {
        ModelChoice::new()
    }
}

/// A selection that survives a swap still names the same model.
pub proof fn law_selection_follows_the_id(before: ChoiceView, ids: Seq<Seq<char>>, after: ChoiceView)
    requires
        before.selected < before.ids.len(),
        position_of(ids, before.ids[before.selected as int]) >= 0,
        after.ids == ids,
        after.selected == position_of(ids, before.ids[before.selected as int]) as nat,
    ensures
        after.selected < after.ids.len(),
        after.ids[after.selected as int] == before.ids[before.selected as int],
{
    lemma_position_found(ids, before.ids[before.selected as int]);
}

proof fn lemma_position_found(ids: Seq<Seq<char>>, id: Seq<char>)
    ensures
        position_of(ids, id) < ids.len(),
        position_of(ids, id) >= 0 ==> ids[position_of(ids, id)] == id,
    decreases ids.len(),
{
    if ids.len() > 0 && ids[0] != id {
        lemma_position_found(ids.drop_first(), id);
        if position_of(ids, id) >= 0 {
            assert(ids.drop_first()[position_of(ids, id) - 1] == ids[position_of(ids, id)]);
        }
    }
}

} // verus!

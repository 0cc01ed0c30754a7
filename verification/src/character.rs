use vstd::prelude::*;
use crate::text::chars_of;

verus! {

/// Characters and forms are visible unless their data says otherwise.
pub fn default_visible() -> (r: bool)
    ensures
        r,
{
    true
}

/// Whether two strings hold the same characters.
pub fn same_text(a: &str, b: &str) -> (r: bool)
    ensures
        r == (a@ == b@),
{
    let x = chars_of(a);
    let y = chars_of(b);
    if x.len() != y.len() {
        return false;
    }
    let n = x.len();
    for i in 0..n
        invariant
            n == x@.len(),
            n == y@.len(),
            x@ == a@,
            y@ == b@,
            forall|j: int| 0 <= j < i ==> x@[j] == y@[j],
    {
        if x[i] != y[i] {
            proof {
                assert(a@[i as int] != b@[i as int]);
            }
            return false;
        }
    }
    proof {
        assert(x@ =~= y@);
    }
    true
}

fn find_key(entries: &Vec<(String, String)>, key: &str) -> (r: Option<usize>)
    ensures
        match r {
            Some(i) => i < entries@.len() && entries@[i as int].0@ == key@ && forall|j: int|
                0 <= j < i ==> (#[trigger] entries@[j]).0@ != key@,
            None => forall|j: int| 0 <= j < entries@.len() ==> (#[trigger] entries@[j]).0@ != key@,
        },
{
    let n = entries.len();
    for i in 0..n
        invariant
            n == entries@.len(),
            forall|j: int| 0 <= j < i ==> (#[trigger] entries@[j]).0@ != key@,
    {
        if same_text(entries[i].0.as_str(), key) {
            return Some(i);
        }
    }
    None
}

/// The entry for `lang` among texts keyed by language, else the one for `en-US`,
/// as the index of the first entry with that key; `None` when neither is there.
pub fn localized(entries: &Vec<(String, String)>, lang: &str) -> (r: Option<usize>)
    ensures
        match r {
            Some(i) => i < entries@.len() && {
                ||| (entries@[i as int].0@ == lang@ && forall|j: int|
                    0 <= j < i ==> (#[trigger] entries@[j]).0@ != lang@)
                ||| ((forall|j: int| 0 <= j < entries@.len() ==> (#[trigger] entries@[j]).0@ != lang@)
                    && entries@[i as int].0@ == seq!['e', 'n', '-', 'U', 'S'] && forall|j: int|
                    0 <= j < i ==> (#[trigger] entries@[j]).0@ != seq!['e', 'n', '-', 'U', 'S'])
            },
            None => forall|j: int|
                0 <= j < entries@.len() ==> (#[trigger] entries@[j]).0@ != lang@
                    && entries@[j].0@ != seq!['e', 'n', '-', 'U', 'S'],
        },
{
    match find_key(entries, lang) {
        Some(i) => Some(i),
        None => {
            let fallback = "en-US";
            proof {
                reveal_strlit("en-US");
                assert(fallback@ =~= seq!['e', 'n', '-', 'U', 'S']);
            }
            find_key(entries, fallback)
        },
    }
}

/// One form of a character, as far as choosing among the forms goes.
pub struct FormEntry {
    pub id: String,
    pub visible: bool,
}

/// A playable character: its forms and which one is selected.
pub struct Character {
    pub id: String,
    pub forms: Vec<FormEntry>,
    pub visible: bool,
    pub selected_form: usize,
}

impl Character {
    /// The form shown: the selected one, or the last form when the selection is
    /// past the end.
    pub fn current_form(&self) -> (r: usize)
        requires
            self.forms@.len() > 0,
        ensures
            r == if self.selected_form < self.forms@.len() {
                self.selected_form as int
            } else {
                self.forms@.len() - 1
            },
    {
        let last = self.forms.len() - 1;
        if self.selected_form < last {
            self.selected_form
        } else {
            last
        }
    }

    /// Selects the first form with the given id; an unknown id changes nothing.
    pub fn set_form(&mut self, form_id: &str)
        ensures
            final(self).id == old(self).id,
            final(self).forms == old(self).forms,
            final(self).visible == old(self).visible,
            match first_form(old(self).forms@, form_id@) {
                Some(i) => final(self).selected_form == i,
                None => final(self).selected_form == old(self).selected_form,
            },
    {
        let n = self.forms.len();
        for i in 0..n
            invariant
                n == self.forms@.len(),
                *self == *old(self),
                forall|j: int| 0 <= j < i ==> (#[trigger] self.forms@[j]).id@ != form_id@,
        {
            if same_text(self.forms[i].id.as_str(), form_id) {
                proof {
                    lemma_first_form(self.forms@, form_id@, i as int);
                }
                self.selected_form = i;
                return;
            }
        }
        proof {
            assert(!exists|i: int| 0 <= i < self.forms@.len() && (#[trigger] self.forms@[i]).id@ == form_id@);
        }
    }

    /// The positions of the visible forms, in order.
    pub fn visible_forms_indices(&self) -> (r: Vec<usize>)
        ensures
            r@ == visible_positions(self.forms@, self.forms@.len() as int),
    {
        let n = self.forms.len();
        let mut r: Vec<usize> = Vec::new();
        for i in 0..n
            invariant
                n == self.forms@.len(),
                r@ == visible_positions(self.forms@, i as int),
        {
            if self.forms[i].visible {
                r.push(i);
            }
        }
        r
    }

    /// How many forms are visible.
    pub fn form_count(&self) -> (r: usize)
        ensures
            r == visible_positions(self.forms@, self.forms@.len() as int).len(),
    {
        self.visible_forms_indices().len()
    }
}

/// The character a character page opens on: the first with the given id, else the first.
pub fn character_index(characters: &Vec<Character>, id: &str) -> (r: usize)
    ensures
        match first_character(characters@, id@) {
            Some(i) => r == i,
            None => r == 0,
        },
{
    let n = characters.len();
    for i in 0..n
        invariant
            n == characters@.len(),
            forall|j: int| 0 <= j < i ==> (#[trigger] characters@[j]).id@ != id@,
    {
        if same_text(characters[i].id.as_str(), id) {
            proof {
                let k = choose|k: int|
                    0 <= k < characters@.len() && (#[trigger] characters@[k]).id@ == id@ && forall|j: int|
                        0 <= j < k ==> (#[trigger] characters@[j]).id@ != id@;
                assert(characters@[i as int].id@ == id@);
                if k < i {
                    assert(characters@[k].id@ != id@);
                } else if k > i {
                    assert(characters@[i as int].id@ != id@);
                }
            }
            return i;
        }
    }
    0
}

/// The first character with the given id.
pub open spec fn first_character(cs: Seq<Character>, id: Seq<char>) -> Option<int> {
    if exists|i: int| 0 <= i < cs.len() && (#[trigger] cs[i]).id@ == id {
        Some(
            choose|i: int|
                0 <= i < cs.len() && (#[trigger] cs[i]).id@ == id && forall|j: int|
                    0 <= j < i ==> (#[trigger] cs[j]).id@ != id,
        )
    } else {
        None
    }
}

/// The first form with the given id.
pub open spec fn first_form(forms: Seq<FormEntry>, id: Seq<char>) -> Option<int> {
    if exists|i: int| 0 <= i < forms.len() && (#[trigger] forms[i]).id@ == id {
        Some(
            choose|i: int|
                0 <= i < forms.len() && (#[trigger] forms[i]).id@ == id && forall|j: int|
                    0 <= j < i ==> (#[trigger] forms[j]).id@ != id,
        )
    } else {
        None
    }
}

proof fn lemma_first_form(forms: Seq<FormEntry>, id: Seq<char>, i: int)
    requires
        0 <= i < forms.len(),
        forms[i].id@ == id,
        forall|j: int| 0 <= j < i ==> (#[trigger] forms[j]).id@ != id,
    ensures
        first_form(forms, id) == Some(i),
{
    let k = choose|k: int|
        0 <= k < forms.len() && (#[trigger] forms[k]).id@ == id && forall|j: int|
            0 <= j < k ==> (#[trigger] forms[j]).id@ != id;
    assert(0 <= k < forms.len() && forms[k].id@ == id && forall|j: int|
        0 <= j < k ==> (#[trigger] forms[j]).id@ != id);
    if k < i {
        assert(forms[k].id@ != id);
    } else if k > i {
        assert(forms[i].id@ != id);
    }
}

/// The positions below `n` of the visible forms, in order.
pub open spec fn visible_positions(forms: Seq<FormEntry>, n: int) -> Seq<usize>
    decreases n,
{
    if n <= 0 {
        seq![]
    } else if forms[n - 1].visible {
        visible_positions(forms, n - 1).push((n - 1) as usize)
    } else {
        visible_positions(forms, n - 1)
    }
}

} // verus!

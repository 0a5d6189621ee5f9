//! Text helpers and a small map keyed by field labels.

use vstd::prelude::*;
use vstd::string::*;

verus! {

/// A copy of a list of strings.
pub fn clone_strings(items: &Vec<String>) -> (out: Vec<String>)
    ensures
        out.deep_view() == items.deep_view(),
{
    let mut out: Vec<String> = Vec::new();
    let mut i: usize = 0;
    while i < items.len()
        invariant
            i <= items.len(),
            out@.len() == i,
            forall|k: int| 0 <= k < i ==> out@[k]@ == items@[k]@,
        decreases items.len() - i,
    {
        out.push(items[i].clone());
        i += 1;
    }
    assert(out.deep_view() =~= items.deep_view());
    out
}

/// Whether `needle` occurs in `items`.
pub fn contains_text(items: &Vec<String>, needle: &String) -> (found: bool)
    ensures
        found == items.deep_view().contains(needle@),
{
    let mut i: usize = 0;
    while i < items.len()
        invariant
            i <= items.len(),
            forall|k: int| 0 <= k < i ==> items@[k]@ != needle@,
        decreases items.len() - i,
    {
        if items[i] == *needle {
            assert(items.deep_view()[i as int] == needle@);
            return true;
        }
        i += 1;
    }
    assert forall|k: int| 0 <= k < items.deep_view().len() implies items.deep_view()[k]
        != needle@ by {
        assert(items.deep_view()[k] == items@[k]@);
    }
    false
}

/// The character of a decimal digit.
pub open spec fn digit_char(d: int) -> char {
    if d == 0 {
        '0'
    } else if d == 1 {
        '1'
    } else if d == 2 {
        '2'
    } else if d == 3 {
        '3'
    } else if d == 4 {
        '4'
    } else if d == 5 {
        '5'
    } else if d == 6 {
        '6'
    } else if d == 7 {
        '7'
    } else if d == 8 {
        '8'
    } else {
        '9'
    }
}

/// The decimal notation of `n`, without leading zeros.
pub open spec fn decimal(n: nat) -> Seq<char>
    decreases n,
{
    if n < 10 {
        seq![digit_char(n as int)]
    } else {
        decimal(n / 10).push(digit_char((n % 10) as int))
    }
}

/// The text of a decimal digit.
fn digit_text(d: usize) -> (text: &'static str)
    requires
        d < 10,
    ensures
        text@ == seq![digit_char(d as int)],
{
    proof {
        reveal_strlit("0");
        reveal_strlit("1");
        reveal_strlit("2");
        reveal_strlit("3");
        reveal_strlit("4");
        reveal_strlit("5");
        reveal_strlit("6");
        reveal_strlit("7");
        reveal_strlit("8");
        reveal_strlit("9");
    }
    let text: &'static str = if d == 0 {
        "0"
    } else if d == 1 {
        "1"
    } else if d == 2 {
        "2"
    } else if d == 3 {
        "3"
    } else if d == 4 {
        "4"
    } else if d == 5 {
        "5"
    } else if d == 6 {
        "6"
    } else if d == 7 {
        "7"
    } else if d == 8 {
        "8"
    } else {
        "9"
    };
    assert(text@ =~= seq![digit_char(d as int)]);
    text
}

/// The decimal notation of `n`.
pub fn decimal_text(n: usize) -> (text: String)
    ensures
        text@ == decimal(n as nat),
    decreases n,
{
    if n < 10 {
        String::from_str(digit_text(n))
    } else {
        let mut text: String = decimal_text(n / 10);
        text.append(digit_text(n % 10));
        assert(text@ =~= decimal((n / 10) as nat).push(digit_char((n % 10) as int)));
        text
    }
}

/// The labels of `labels`, each once, in the order in which they first
/// occur.
pub open spec fn distinct_in_order(labels: Seq<Seq<char>>) -> Seq<Seq<char>>
    decreases labels.len(),
{
    if labels.len() == 0 {
        Seq::empty()
    } else {
        let earlier = distinct_in_order(labels.drop_last());
        if earlier.contains(labels.last()) {
            earlier
        } else {
            earlier.push(labels.last())
        }
    }
}

/// Whether two texts are the same.
pub fn same_text(a: &str, b: &str) -> (r: bool)
    ensures
        r == (a@ == b@),
{
    let left: String = String::from_str(a);
    let right: String = String::from_str(b);
    left == right
}

/// The items of `items` joined by `separator`.
pub open spec fn joined(items: Seq<Seq<char>>, separator: Seq<char>) -> Seq<char>
    decreases items.len(),
{
    if items.len() == 0 {
        Seq::empty()
    } else if items.len() == 1 {
        items[0]
    } else {
        joined(items.drop_last(), separator) + separator + items.last()
    }
}

/// Joins `items` with `separator` between neighbours.
pub fn join_strings(items: &Vec<String>, separator: &str) -> (out: String)
    ensures
        out@ == joined(items.deep_view(), separator@),
{
    let mut out: String = String::new();
    let mut i: usize = 0;
    while i < items.len()
        invariant
            i <= items.len(),
            out@ == joined(items.deep_view().subrange(0, i as int), separator@),
        decreases items.len() - i,
    {
        let ghost before = items.deep_view().subrange(0, i as int);
        let ghost after = items.deep_view().subrange(0, i as int + 1);
        if i > 0 {
            out.append(separator);
        }
        out.append(items[i].as_str());
        proof {
            assert(after.drop_last() =~= before);
            assert(after.last() == items@[i as int]@);
            if i == 0 {
                assert(out@ =~= after[0]);
            }
        }
        i += 1;
    }
    assert(items.deep_view().subrange(0, i as int) =~= items.deep_view());
    out
}

/// A map from field labels to values, kept as a list of entries with
/// distinct labels.
pub struct LabelMap<V> {
    pub(crate) keys: Vec<String>,
    pub(crate) values: Vec<V>,
}

impl<V> LabelMap<V> {
    /// One value per label, and no label twice.
    pub open(crate) spec fn wf(&self) -> bool {
        &&& self.keys@.len() == self.values@.len()
        &&& forall|i: int, j: int|
            0 <= i < j < self.keys@.len() ==> self.keys@[i]@ != self.keys@[j]@
    }

    /// Some entry carries `label`.
    pub open(crate) spec fn has_label(&self, label: Seq<char>) -> bool {
        exists|i: int| 0 <= i < self.keys@.len() && self.keys@[i]@ == label
    }

    /// The position of the entry that carries `label`.
    pub open(crate) spec fn index_of(&self, label: Seq<char>) -> int {
        choose|i: int| 0 <= i < self.keys@.len() && self.keys@[i]@ == label
    }

    /// The map from each label to its value.
    pub open(crate) spec fn view(&self) -> Map<Seq<char>, V> {
        Map::new(
            |label: Seq<char>| self.has_label(label),
            |label: Seq<char>| self.values@[self.index_of(label)],
        )
    }

    /// The labels of the entries, in the order in which they were first
    /// inserted.
    pub open(crate) spec fn labels(&self) -> Seq<Seq<char>> {
        Seq::new(self.keys@.len(), |i: int| self.keys@[i]@)
    }

    /// The number of entries.
    pub open(crate) spec fn spec_len(&self) -> usize {
        self.keys.len()
    }

    /// The labels of a map are the labels under which it holds a value,
    /// each once.
    pub proof fn lemma_labels(&self)
        requires
            self.wf(),
        ensures
            self.labels().len() == self.spec_len(),
            self.labels().no_duplicates(),
            forall|label: Seq<char>| self.labels().contains(label) <==> self@.contains_key(label),
    {
        let labels = self.labels();
        assert forall|label: Seq<char>| labels.contains(label) <==> self@.contains_key(label) by {
            if labels.contains(label) {
                let i = choose|i: int| 0 <= i < labels.len() && labels[i] == label;
                assert(self.keys@[i]@ == label);
            }
            if self@.contains_key(label) {
                let i = self.index_of(label);
                assert(labels[i] == label);
            }
        }
    }

    /// Entry `i` is found under its label.
    proof fn lemma_entry(&self, i: int)
        requires
            self.wf(),
            0 <= i < self.keys@.len(),
        ensures
            self.has_label(self.keys@[i]@),
            self.index_of(self.keys@[i]@) == i,
            self@.contains_key(self.keys@[i]@),
            self@[self.keys@[i]@] == self.values@[i],
    {
    }

    /// An empty map.
    pub fn new() -> (m: LabelMap<V>)
        ensures
            m.wf(),
            m@ == Map::<Seq<char>, V>::empty(),
            m.labels() == Seq::<Seq<char>>::empty(),
            m.spec_len() == 0,
    {
        let m = LabelMap { keys: Vec::new(), values: Vec::new() };
        assert(m@ =~= Map::<Seq<char>, V>::empty());
        assert(m.labels() =~= Seq::<Seq<char>>::empty());
        m
    }

    /// The number of entries.
    #[verifier::when_used_as_spec(spec_len)]
    pub fn len(&self) -> (n: usize)
        ensures
            n == self.spec_len(),
    {
        self.keys.len()
    }

    /// The position of `label` among the entries.
    pub(crate) fn find(&self, label: &str) -> (r: Option<usize>)
        requires
            self.wf(),
        ensures
            match r {
                Some(i) => i < self.keys@.len() && self.keys@[i as int]@ == label@
                    && self.index_of(label@) == i && self.has_label(label@),
                None => !self.has_label(label@),
            },
    {
        let wanted: String = String::from_str(label);
        let mut i: usize = 0;
        while i < self.keys.len()
            invariant
                self.wf(),
                i <= self.keys@.len(),
                wanted@ == label@,
                forall|k: int| 0 <= k < i ==> self.keys@[k]@ != label@,
            decreases self.keys.len() - i,
        {
            if self.keys[i] == wanted {
                proof {
                    self.lemma_entry(i as int);
                }
                return Some(i);
            }
            i += 1;
        }
        None
    }

    /// The value stored under `label`, if there is one.
    pub fn get(&self, label: &str) -> (r: Option<&V>)
        requires
            self.wf(),
        ensures
            match r {
                Some(v) => self@.contains_key(label@) && *v == self@[label@],
                None => !self@.contains_key(label@),
            },
    {
        match self.find(label) {
            Some(i) => Some(&self.values[i]),
            None => None,
        }
    }

    /// Whether a value is stored under `label`.
    pub fn contains_key(&self, label: &str) -> (r: bool)
        requires
            self.wf(),
        ensures
            r == self@.contains_key(label@),
    {
        self.find(label).is_some()
    }

    /// Stores `value` under `label`, in place of any value stored there.
    pub fn insert(&mut self, label: String, value: V)
        requires
            old(self).wf(),
        ensures
            final(self).wf(),
            final(self)@ == old(self)@.insert(label@, value),
            final(self).labels() == if old(self)@.contains_key(label@) {
                old(self).labels()
            } else {
                old(self).labels().push(label@)
            },
    {
        let ghost before = *self;
        match self.find(label.as_str()) {
            Some(i) => {
                self.values.set(i, value);
                proof {
                    assert(self.keys@ == before.keys@);
                    assert(self.labels() =~= before.labels());
                    assert forall|k: Seq<char>| self.has_label(k) == before.has_label(k) by {
                        if before.has_label(k) {
                            let j = before.index_of(k);
                            assert(self.keys@[j]@ == k);
                        }
                        if self.has_label(k) {
                            let j = self.index_of(k);
                            assert(before.keys@[j]@ == k);
                        }
                    }
                    assert forall|k: Seq<char>| #[trigger] self@.contains_key(k) implies self@[k]
                        == before@.insert(label@, value)[k] by {
                        let j = self.index_of(k);
                        self.lemma_entry(j);
                        before.lemma_entry(j);
                        if k == label@ {
                            self.lemma_entry(i as int);
                        } else {
                            assert(j != i);
                        }
                    }
                    assert(self@ =~= before@.insert(label@, value));
                }
            },
            None => {
                self.keys.push(label);
                self.values.push(value);
                proof {
                    let n = before.keys@.len() as int;
                    assert(self.keys@[n]@ == label@);
                    assert(self.labels() =~= before.labels().push(label@));
                    assert forall|i: int, j: int| 0 <= i < j < self.keys@.len() implies self.keys@[i]@
                        != self.keys@[j]@ by {
                        if j == n {
                            assert(before.keys@[i]@ == self.keys@[i]@);
                            assert(!before.has_label(label@));
                        } else {
                            assert(before.keys@[i]@ == self.keys@[i]@);
                            assert(before.keys@[j]@ == self.keys@[j]@);
                        }
                    }
                    assert forall|k: Seq<char>| self.has_label(k) == (before.has_label(k) || k
                        == label@) by {
                        if before.has_label(k) {
                            let j = before.index_of(k);
                            assert(self.keys@[j]@ == k);
                        }
                        if k == label@ {
                            assert(self.keys@[n]@ == k);
                        }
                        if self.has_label(k) {
                            let j = self.index_of(k);
                            if j < n {
                                assert(before.keys@[j]@ == k);
                            }
                        }
                    }
                    assert forall|k: Seq<char>| #[trigger] self@.contains_key(k) implies self@[k]
                        == before@.insert(label@, value)[k] by {
                        let j = self.index_of(k);
                        self.lemma_entry(j);
                        if j < n {
                            assert(before.keys@[j]@ == k);
                            before.lemma_entry(j);
                        }
                    }
                    assert(self@ =~= before@.insert(label@, value));
                }
            },
        }
    }

    /// The label of entry `i`, in order of first insertion.
    pub fn label_at(&self, i: usize) -> (label: &String)
        requires
            self.wf(),
            i < self.spec_len(),
        ensures
            label@ == self.labels()[i as int],
            self@.contains_key(label@),
    {
        proof {
            self.lemma_entry(i as int);
        }
        &self.keys[i]
    }
}

} // verus!

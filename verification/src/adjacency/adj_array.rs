use vstd::prelude::*;
use vstd::string::StringExecFns;

verus! {

/// Number of slots of an [`AdjArray`]: one for the count and one per neighbour.
pub const ADJ_LEN: usize = 9;

/// The most neighbours that an [`AdjArray`] holds.
pub const ADJ_MAX: usize = 8;

/// The largest node index that an [`AdjArray`] can store.
pub const INDEX_MAX: usize = 65535;

/// The neighbours of one node: slot 0 holds the count, the slots after it the
/// neighbour indices in the order in which they were added. Unused slots are zero,
/// so two lists with the same neighbours are the same value.
#[derive(Debug, Copy, Clone, PartialEq, Eq)]
pub struct AdjArray([u16; 9]);

/// A cursor over the neighbours of an [`AdjArray`], in insertion order.
pub struct Iter<'a> {
    array: &'a AdjArray,
    pos: usize,
}

/// The values of `a` that also occur in `b`, in the order they have in `a`, each
/// as often as `a` holds it.
pub open spec fn intersection(a: Seq<usize>, b: Seq<usize>) -> Seq<usize> {
    a.filter(|v: usize| b.contains(v))
}

impl View for AdjArray {
    type V = Seq<usize>;

    closed spec fn view(&self) -> Seq<usize> {
        Seq::new(self.0[0] as nat, |k: int| self.0[k + 1] as usize)
    }
}

impl AdjArray {
    /// The count fits the slots, and every slot past the count is zero. This holds
    /// of every list that a program can hold.
    #[verifier::type_invariant]
    pub closed spec fn wf(&self) -> bool {
        &&& self.0[0] <= ADJ_MAX
        &&& forall|k: int| self.0[0] < k < ADJ_LEN ==> self.0[k] == 0
    }

    /// A well-formed list holds at most `ADJ_MAX` neighbours, each of which fits
    /// the storage width.
    pub proof fn lemma_bounds(self)
        requires
            self.wf(),
        ensures
            self@.len() <= ADJ_MAX,
            forall|k: int| 0 <= k < self@.len() ==> #[trigger] self@[k] <= INDEX_MAX,
    {
    }

    /// Two well-formed lists with the same neighbours in the same order are equal.
    pub proof fn lemma_view_injective(self, other: AdjArray)
        requires
            self.wf(),
            other.wf(),
            self@ == other@,
        ensures
            self == other,
    {
        assert(self@.len() == self.0[0] && other@.len() == other.0[0]);
        assert forall|k: int| 0 <= k < ADJ_LEN implies self.0[k] == other.0[k] by {
            if 1 <= k <= self.0[0] {
                assert(self@[k - 1] == self.0[k] && other@[k - 1] == other.0[k]);
            }
        }
        assert(self.0 =~= other.0);
    }

    /// How many neighbours the list holds.
    pub fn len(&self) -> (n: usize)
        ensures
            n == self@.len(),
            n <= ADJ_MAX,
    {
        proof {
            use_type_invariant(self);
        }
        self.0[0] as usize
    }

    /// Whether the list holds no neighbour.
    pub fn is_empty(&self) -> (b: bool)
        ensures
            b == (self@.len() == 0),
    {
        proof {
            use_type_invariant(self);
        }
        self.0[0] == 0
    }

    /// The neighbour at position `k`.
    pub fn get(&self, k: usize) -> (v: usize)
        requires
            k < self@.len(),
        ensures
            v == self@[k as int],
    {
        proof {
            use_type_invariant(self);
        }
        self.0[k + 1] as usize
    }

    /// A cursor that hands out the neighbours in insertion order, from the first.
    pub fn iter(&self) -> (it: Iter<'_>)
        ensures
            it@ == self@,
    {
        proof {
            use_type_invariant(self);
        }
        let it = Iter { array: self, pos: 0 };
        assert(it@ =~= self@);
        it
    }

    /// The neighbours as a vector, in insertion order.
    pub fn to_vec(&self) -> (v: Vec<usize>)
        ensures
            v@ == self@,
    {
        proof {
            use_type_invariant(self);
        }
        let n: usize = self.len();
        let mut v: Vec<usize> = Vec::new();
        let mut k: usize = 0;
        while k < n
            invariant
                self.wf(),
                n == self@.len(),
                k <= n,
                v@ == self@.take(k as int),
            decreases n - k,
        {
            v.push(self.get(k));
            assert(self@.take(k + 1) =~= self@.take(k as int).push(self@[k as int]));
            k += 1;
        }
        assert(self@.take(n as int) =~= self@);
        v
    }

    /// Whether `value` is one of the neighbours.
    pub fn contains(&self, value: usize) -> (b: bool)
        ensures
            b == self@.contains(value),
    {
        proof {
            use_type_invariant(self);
        }
        let n: usize = self.len();
        let mut k: usize = 0;
        while k < n
            invariant
                self.wf(),
                n == self@.len(),
                k <= n,
                forall|m: int| 0 <= m < k ==> self@[m] != value,
            decreases n - k,
        {
            if self.get(k) == value {
                return true;
            }
            k += 1;
        }
        false
    }

    /// Appends `value` as the last neighbour.
    pub fn push(&mut self, value: usize)
        requires
            old(self)@.len() < ADJ_MAX,
            value <= INDEX_MAX,
        ensures
            final(self).wf(),
            final(self)@ == old(self)@.push(value),
    {
        proof {
            use_type_invariant(&*self);
        }
        let n: usize = self.len();
        let mut slots: [u16; 9] = self.0;
        slots[n + 1] = value as u16;
        slots[0] = (n + 1) as u16;
        self.0 = slots;
        assert(self@ =~= old(self)@.push(value));
    }

    /// The list of the given values, in their order.
    pub fn from_iter(items: Vec<usize>) -> (a: AdjArray)
        requires
            items@.len() <= ADJ_MAX,
            forall|k: int| 0 <= k < items@.len() ==> #[trigger] items@[k] <= INDEX_MAX,
        ensures
            a.wf(),
            a@ == items@,
    {
        let mut a = AdjArray::default();
        let mut k: usize = 0;
        while k < items.len()
            invariant
                items@.len() <= ADJ_MAX,
                forall|m: int| 0 <= m < items@.len() ==> #[trigger] items@[m] <= INDEX_MAX,
                k <= items@.len(),
                a.wf(),
                a@ == items@.take(k as int),
            decreases items@.len() - k,
        {
            a.push(items[k]);
            assert(items@.take(k + 1) =~= items@.take(k as int).push(items@[k as int]));
            k += 1;
        }
        assert(items@.take(k as int) =~= items@);
        a
    }

    /// Set intersection: the neighbours of `self` that `rhs` lists too.
    pub fn and(self, rhs: AdjArray) -> (a: AdjArray)
        ensures
            a.wf(),
            a@ == intersection(self@, rhs@),
            forall|v: usize| a@.contains(v) <==> self@.contains(v) && rhs@.contains(v),
            self@.no_duplicates() ==> a@.no_duplicates(),
    {
        proof {
            use_type_invariant(self);
            use_type_invariant(rhs);
        }
        let ghost keep = |v: usize| rhs@.contains(v);
        let n: usize = self.len();
        let mut a = AdjArray::default();
        let mut k: usize = 0;
        proof {
            self.lemma_bounds();
            assert(self@.take(0) =~= Seq::<usize>::empty());
        }
        while k < n
            invariant
                self.wf(),
                rhs.wf(),
                n == self@.len(),
                k <= n,
                keep == (|v: usize| rhs@.contains(v)),
                forall|m: int| 0 <= m < self@.len() ==> #[trigger] self@[m] <= INDEX_MAX,
                a.wf(),
                a@ == self@.take(k as int).filter(keep),
                a@.len() <= k,
            decreases n - k,
        {
            let v: usize = self.get(k);
            proof {
                assert(self@.take(k + 1) =~= self@.take(k as int).push(v));
                self@.take(k as int).lemma_filter_push(v, keep);
            }
            if rhs.contains(v) {
                a.push(v);
            }
            k += 1;
        }
        proof {
            assert(self@.take(n as int) =~= self@);
            lemma_intersection(self@, rhs@);
        }
        a
    }
}

/// The intersection holds exactly the values that both lists hold, and none of
/// them twice where the first list holds none twice.
pub proof fn lemma_intersection(a: Seq<usize>, b: Seq<usize>)
    ensures
        forall|v: usize| #[trigger]
            intersection(a, b).contains(v) <==> a.contains(v) && b.contains(v),
        a.no_duplicates() ==> intersection(a, b).no_duplicates(),
        intersection(a, b).len() <= a.len(),
{
    broadcast use vstd::seq_lib::group_filter_ensures;

    let keep = |v: usize| b.contains(v);
    let r = a.filter(keep);
    assert forall|v: usize| #[trigger] r.contains(v) <==> a.contains(v) && b.contains(v) by {
        if r.contains(v) {
            let i = choose|i: int| 0 <= i < r.len() && r[i] == v;
            assert(keep(r[i]));
            a.lemma_filter_contains_rev(keep, v);
        }
        if a.contains(v) && b.contains(v) {
            let i = choose|i: int| 0 <= i < a.len() && a[i] == v;
            assert(keep(a[i]));
            assert(r.contains(a[i]));
        }
    }
    if a.no_duplicates() {
        lemma_filter_no_duplicates(a, keep);
    }
}

/// Filtering keeps a sequence free of repeated values.
pub proof fn lemma_filter_no_duplicates(a: Seq<usize>, keep: spec_fn(usize) -> bool)
    requires
        a.no_duplicates(),
    ensures
        a.filter(keep).no_duplicates(),
    decreases a.len(),
{
    reveal(Seq::filter);
    if a.len() > 0 {
        let front = a.drop_last();
        let last = a.last();
        assert(front.no_duplicates());
        lemma_filter_no_duplicates(front, keep);
        if keep(last) {
            let r = front.filter(keep);
            assert(a.filter(keep) == r.push(last));
            assert forall|i: int| 0 <= i < r.len() implies r[i] != last by {
                assert(r.contains(r[i]));
                front.lemma_filter_contains_rev(keep, r[i]);
                let j = choose|j: int| 0 <= j < front.len() && front[j] == r[i];
                assert(a[j] == r[i]);
            }
        }
    }
}

/// The list without neighbours.
impl Default for AdjArray {
    fn default() -> (a: AdjArray)
        ensures
            a.wf(),
            a@ == Seq::<usize>::empty(),
    {
        let a = AdjArray([0u16; 9]);
        assert(a@ =~= Seq::<usize>::empty());
        a
    }
}

impl<'a> View for Iter<'a> {
    type V = Seq<usize>;

    /// The neighbours that are still to come.
    closed spec fn view(&self) -> Seq<usize> {
        self.array@.skip(self.pos as int)
    }
}

impl<'a> Iter<'a> {
    /// The cursor stands within its list.
    #[verifier::type_invariant]
    pub closed spec fn wf(&self) -> bool {
        self.array.wf() && self.pos <= self.array@.len()
    }

    /// Hands out the next neighbour, or `None` when all were handed out.
    pub fn next(&mut self) -> (r: Option<usize>)
        ensures
            old(self)@.len() == 0 ==> r.is_none() && final(self)@ == old(self)@,
            old(self)@.len() > 0 ==> r == Some(old(self)@[0]) && final(self)@ == old(self)@.skip(1),
    {
        proof {
            use_type_invariant(&*self);
        }
        if self.pos < self.array.len() {
            let v: usize = self.array.get(self.pos);
            self.pos += 1;
            assert(self@ =~= old(self)@.skip(1));
            Some(v)
        } else {
            None
        }
    }
}

/// The character of one decimal digit.
pub open spec fn digit_char(d: nat) -> char {
    if d == 0 {
        '0'
    } else if d == 1 {
        '1'
    } else if d == 2 {
        '2'
    } else if d == 3 {
        '3'
    } else if d == 4 {
        '4'
    } else if d == 5 {
        '5'
    } else if d == 6 {
        '6'
    } else if d == 7 {
        '7'
    } else if d == 8 {
        '8'
    } else {
        '9'
    }
}

/// A number in decimal digits, without leading zeros.
pub open spec fn decimal(n: nat) -> Seq<char>
    decreases n,
{
    if n < 10 {
        seq![digit_char(n)]
    } else {
        decimal(n / 10).push(digit_char(n % 10))
    }
}

/// The values in decimal, a comma and a space between each two.
pub open spec fn listed(values: Seq<usize>) -> Seq<char>
    decreases values.len(),
{
    if values.len() == 0 {
        Seq::empty()
    } else if values.len() == 1 {
        decimal(values[0] as nat)
    } else {
        listed(values.drop_last()) + seq![',', ' '] + decimal(values.last() as nat)
    }
}

/// How a list of neighbours is written: `[]` when empty, else like `[1, 2, 3]`.
pub open spec fn display(values: Seq<usize>) -> Seq<char> {
    seq!['['] + listed(values) + seq![']']
}

/// Appends one decimal digit.
fn append_digit(out: &mut String, d: usize)
    requires
        d < 10,
    ensures
        final(out)@ == old(out)@.push(digit_char(d as nat)),
{
    proof {
        reveal_strlit("0");
        reveal_strlit("1");
        reveal_strlit("2");
        reveal_strlit("3");
        reveal_strlit("4");
        reveal_strlit("5");
        reveal_strlit("6");
        reveal_strlit("7");
        reveal_strlit("8");
        reveal_strlit("9");
    }
    let text: &str = if d == 0 {
        "0"
    } else if d == 1 {
        "1"
    } else if d == 2 {
        "2"
    } else if d == 3 {
        "3"
    } else if d == 4 {
        "4"
    } else if d == 5 {
        "5"
    } else if d == 6 {
        "6"
    } else if d == 7 {
        "7"
    } else if d == 8 {
        "8"
    } else {
        "9"
    };
    assert(text@ =~= seq![digit_char(d as nat)]);
    out.append(text);
    assert(out@ =~= old(out)@.push(digit_char(d as nat)));
}

/// Appends `n` in decimal.
fn append_decimal(out: &mut String, n: usize)
    ensures
        final(out)@ == old(out)@ + decimal(n as nat),
    decreases n,
{
    if n >= 10 {
        append_decimal(out, n / 10);
    }
    append_digit(out, n % 10);
    assert(out@ =~= old(out)@ + decimal(n as nat));
}

impl AdjArray {
    /// The list as text: its neighbours in decimal between square brackets, a
    /// comma and a space between each two.
    pub fn to_string(&self) -> (text: String)
        ensures
            text@ == display(self@),
    {
        proof {
            use_type_invariant(self);
        }
        proof {
            reveal_strlit("[");
        }
        let n: usize = self.len();
        let mut text: String = String::from_str("[");
        let mut k: usize = 0;
        assert(self@.take(0) =~= Seq::<usize>::empty());
        while k < n
            invariant
                self.wf(),
                n == self@.len(),
                k <= n,
                text@ == seq!['['] + listed(self@.take(k as int)),
            decreases n - k,
        {
            let ghost before = self@.take(k as int);
            let ghost after = self@.take(k + 1);
            proof {
                assert(after.drop_last() =~= before);
                assert(after.last() == self@[k as int]);
                assert(after[0] == self@[0]);
                reveal_strlit(", ");
            }
            if k > 0 {
                text.append(", ");
                assert(", "@ =~= seq![',', ' ']);
            }
            append_decimal(&mut text, self.get(k));
            assert(text@ =~= seq!['['] + listed(after));
            k += 1;
        }
        proof {
            reveal_strlit("]");
        }
        text.append("]");
        assert(self@.take(n as int) =~= self@);
        text
    }
}

} // verus!

//! Identifier texts such as `E12` and `L3`, and the handing out of fresh ones.

use vstd::prelude::*;
use vstd::set_lib::lemma_len_subset;
use crate::text::{
    chars_of, contains_text, decimal_chars, decimal_text, lemma_decimal_text_injective, parse_u32,
    parse_u32_spec, string_of, subrange, texts,
};

verus! {

/// The identifier with the letter `prefix` and the number `n`.
pub open spec fn id_text(prefix: char, n: nat) -> Seq<char> {
    seq![prefix] + decimal_text(n)
}

/// Different numbers give different identifiers.
pub proof fn lemma_id_text_injective(prefix: char, a: nat, b: nat)
    requires
        id_text(prefix, a) == id_text(prefix, b),
    ensures
        a == b,
{
    assert(id_text(prefix, a).skip(1) == decimal_text(a));
    assert(id_text(prefix, b).skip(1) == decimal_text(b));
    lemma_decimal_text_injective(a, b);
}

/// Writes the identifier with the letter `prefix` and the number `n`.
pub fn id_string(prefix: char, n: u128) -> (out: String)
    ensures
        out@ == id_text(prefix, n as nat),
{
    let digits = decimal_chars(n);
    let mut chars: Vec<char> = Vec::new();
    chars.push(prefix);
    let mut i: usize = 0;
    while i < digits.len()
        invariant
            i <= digits.len(),
            chars@ == seq![prefix] + digits@.take(i as int),
        decreases digits.len() - i,
    {
        chars.push(digits[i]);
        assert(digits@.take(i + 1) == digits@.take(i as int).push(digits@[i as int]));
        i += 1;
    }
    assert(digits@.take(digits.len() as int) == digits@);
    string_of(&chars)
}

/// `s` without the run of `c` that it starts with.
pub open spec fn strip_leading(s: Seq<char>, c: char) -> Seq<char>
    decreases s.len(),
{
    if s.len() > 0 && s[0] == c {
        strip_leading(s.drop_first(), c)
    } else {
        s
    }
}

/// The number that an identifier carries behind its letter: what is left
/// after the leading run of `prefix`, read as a decimal `u32` with an
/// optional `+` before the digits.
pub open spec fn numeric_suffix(id: Seq<char>, prefix: char) -> Option<u32> {
    let s = strip_leading(id, prefix);
    if s.len() > 0 && s[0] == '+' {
        parse_u32_spec(s.drop_first())
    } else {
        parse_u32_spec(s)
    }
}

/// The largest number that any of `ids` carries, or 0 where none carries one.
pub open spec fn max_suffix(ids: Seq<Seq<char>>, prefix: char) -> nat
    decreases ids.len(),
{
    if ids.len() == 0 {
        0
    } else {
        let before = max_suffix(ids.drop_last(), prefix);
        match numeric_suffix(ids.last(), prefix) {
            Some(n) => if n > before {
                n as nat
            } else {
                before
            },
            None => before,
        }
    }
}

/// Reads the number that an identifier carries behind its letter.
pub fn suffix_of(id: &String, prefix: char) -> (out: Option<u32>)
    ensures
        out == numeric_suffix(id@, prefix),
{
    let chars = chars_of(id.as_str());
    let n = chars.len();
    let mut start: usize = 0;
    assert(chars@.skip(0) == chars@);
    while start < n && chars[start] == prefix
        invariant
            start <= n == chars.len(),
            strip_leading(chars@, prefix) == strip_leading(chars@.skip(start as int), prefix),
        decreases n - start,
    {
        assert(chars@.skip(start as int)[0] == chars@[start as int]);
        assert(chars@.skip(start as int).drop_first() == chars@.skip(start + 1));
        start += 1;
    }
    proof {
        if start < n {
            assert(chars@.skip(start as int)[0] == chars@[start as int]);
        }
        assert(strip_leading(chars@, prefix) == chars@.skip(start as int));
    }
    if start < n && chars[start] == '+' {
        assert(chars@.skip(start as int)[0] == '+');
        assert(chars@.skip(start as int).drop_first() == chars@.skip(start + 1));
        let digits = subrange(&chars, start + 1, n);
        parse_u32(&digits)
    } else {
        let digits = subrange(&chars, start, n);
        parse_u32(&digits)
    }
}

/// One past the largest number that any of `ids` carries.
pub fn next_index(ids: &Vec<String>, prefix: char) -> (out: u128)
    ensures
        out == max_suffix(texts(ids@), prefix) + 1,
        out <= u32::MAX + 1,
{
    let mut best: u32 = 0;
    let mut i: usize = 0;
    assert(texts(ids@).take(0) == Seq::<Seq<char>>::empty());
    while i < ids.len()
        invariant
            i <= ids.len(),
            best == max_suffix(texts(ids@).take(i as int), prefix),
        decreases ids.len() - i,
    {
        assert(texts(ids@).take(i + 1).drop_last() == texts(ids@).take(i as int));
        assert(texts(ids@).take(i + 1).last() == ids@[i as int]@);
        match suffix_of(&ids[i], prefix) {
            Some(n) => {
                if n > best {
                    best = n;
                }
            },
            None => {},
        }
        i += 1;
    }
    assert(texts(ids@).take(ids.len() as int) == texts(ids@));
    best as u128 + 1
}

/// The first number from `n` on whose identifier `used` lacks, looking at no
/// more than `budget` numbers beyond `n`.
pub open spec fn first_free(used: Seq<Seq<char>>, prefix: char, n: nat, budget: nat) -> nat
    decreases budget,
{
    if budget == 0 || !used.contains(id_text(prefix, n)) {
        n
    } else {
        first_free(used, prefix, n + 1, (budget - 1) as nat)
    }
}

/// The smallest number from `start` on whose identifier `used` lacks.
pub open spec fn fresh_index(used: Seq<Seq<char>>, prefix: char, start: nat) -> nat {
    first_free(used, prefix, start, used.len())
}

/// The identifiers of the numbers from `lo` up to, not including, `hi`.
pub open spec fn id_range(prefix: char, lo: nat, hi: nat) -> Set<Seq<char>>
    decreases hi,
{
    if hi <= lo {
        Set::empty()
    } else {
        id_range(prefix, lo, (hi - 1) as nat).insert(id_text(prefix, (hi - 1) as nat))
    }
}

proof fn lemma_id_range(prefix: char, lo: nat, hi: nat)
    requires
        lo <= hi,
    ensures
        id_range(prefix, lo, hi).finite(),
        id_range(prefix, lo, hi).len() == hi - lo,
        forall|s: Seq<char>| #[trigger]
            id_range(prefix, lo, hi).contains(s) <==> exists|m: nat|
                lo <= m < hi && s == id_text(prefix, m),
    decreases hi,
{
    if hi > lo {
        let before = id_range(prefix, lo, (hi - 1) as nat);
        let last = id_text(prefix, (hi - 1) as nat);
        lemma_id_range(prefix, lo, (hi - 1) as nat);
        if before.contains(last) {
            let m = choose|m: nat| lo <= m < hi - 1 && last == id_text(prefix, m);
            lemma_id_text_injective(prefix, m, (hi - 1) as nat);
        }
        assert forall|s: Seq<char>| #[trigger]
            id_range(prefix, lo, hi).contains(s) <==> exists|m: nat|
                lo <= m < hi && s == id_text(prefix, m) by {
            if id_range(prefix, lo, hi).contains(s) {
                if s == last {
                    let top = (hi - 1) as nat;
                    assert(lo <= top < hi && s == id_text(prefix, top));
                } else {
                    assert(before.contains(s));
                    let m = choose|m: nat| lo <= m < hi - 1 && s == id_text(prefix, m);
                    assert(lo <= m < hi && s == id_text(prefix, m));
                }
            }
            if exists|m: nat| lo <= m < hi && s == id_text(prefix, m) {
                let m = choose|m: nat| lo <= m < hi && s == id_text(prefix, m);
                if m < hi - 1 {
                    assert(lo <= m < hi - 1 && s == id_text(prefix, m));
                    assert(before.contains(s));
                }
            }
        }
    }
}

/// A list cannot hold the identifiers of more numbers than it has entries.
pub proof fn lemma_used_run_bounded(used: Seq<Seq<char>>, prefix: char, lo: nat, hi: nat)
    requires
        lo <= hi,
        forall|m: nat| lo <= m < hi ==> used.contains(#[trigger] id_text(prefix, m)),
    ensures
        hi - lo <= used.len(),
{
    lemma_id_range(prefix, lo, hi);
    let run = id_range(prefix, lo, hi);
    assert forall|s: Seq<char>| run.contains(s) implies used.to_set().contains(s) by {
        let m = choose|m: nat| lo <= m < hi && s == id_text(prefix, m);
        assert(used.contains(id_text(prefix, m)));
    }
    assert(used.to_set().finite()) by {
        vstd::seq_lib::seq_to_set_is_finite(used);
    }
    lemma_len_subset(run, used.to_set());
    used.lemma_cardinality_of_set();
}

proof fn lemma_first_free(used: Seq<Seq<char>>, prefix: char, start: nat, n: nat, budget: nat)
    requires
        start <= n,
        n - start + budget == used.len(),
        forall|m: nat| start <= m < n ==> used.contains(#[trigger] id_text(prefix, m)),
    ensures
        n <= first_free(used, prefix, n, budget) <= n + budget,
        !used.contains(id_text(prefix, first_free(used, prefix, n, budget))),
        forall|m: nat|
            start <= m < first_free(used, prefix, n, budget) ==> used.contains(
                #[trigger] id_text(prefix, m),
            ),
    decreases budget,
{
    if !used.contains(id_text(prefix, n)) {
    } else if budget == 0 {
        lemma_used_run_bounded(used, prefix, start, n + 1);
    } else {
        lemma_first_free(used, prefix, start, n + 1, (budget - 1) as nat);
    }
}

/// The fresh number is the smallest from `start` on whose identifier is free.
pub proof fn lemma_fresh_index(used: Seq<Seq<char>>, prefix: char, start: nat)
    ensures
        start <= fresh_index(used, prefix, start) <= start + used.len(),
        !used.contains(id_text(prefix, fresh_index(used, prefix, start))),
        forall|m: nat|
            start <= m < fresh_index(used, prefix, start) ==> used.contains(
                #[trigger] id_text(prefix, m),
            ),
{
    lemma_first_free(used, prefix, start, start, used.len());
}

/// Whether two lists hold the same identifiers, in whatever order and
/// however often.
pub open spec fn same_members(a: Seq<Seq<char>>, b: Seq<Seq<char>>) -> bool {
    forall|x: Seq<char>| a.contains(x) <==> b.contains(x)
}

/// The largest number is carried by one of the identifiers, and none
/// carries a larger one.
pub proof fn lemma_max_suffix(ids: Seq<Seq<char>>, prefix: char)
    ensures
        forall|i: int|
            0 <= i < ids.len() ==> (numeric_suffix(#[trigger] ids[i], prefix) matches Some(n)
                ==> n <= max_suffix(ids, prefix)),
        max_suffix(ids, prefix) == 0 || exists|i: int|
            0 <= i < ids.len() && numeric_suffix(#[trigger] ids[i], prefix) == Some(
                max_suffix(ids, prefix) as u32,
            ),
        max_suffix(ids, prefix) <= u32::MAX,
    decreases ids.len(),
{
    if ids.len() > 0 {
        let before = ids.drop_last();
        lemma_max_suffix(before, prefix);
        let top = max_suffix(ids, prefix);
        assert forall|i: int| 0 <= i < ids.len() implies (numeric_suffix(
            #[trigger] ids[i],
            prefix,
        ) matches Some(n) ==> n <= top) by {
            if i < before.len() {
                assert(ids[i] == before[i]);
            }
        }
        if top != 0 {
            if top == max_suffix(before, prefix) {
                let i = choose|i: int|
                    0 <= i < before.len() && numeric_suffix(#[trigger] before[i], prefix) == Some(
                        top as u32,
                    );
                assert(ids[i] == before[i]);
            } else {
                assert(numeric_suffix(ids[ids.len() - 1], prefix) == Some(top as u32));
            }
        }
    }
}

/// The largest number depends on which identifiers there are, not on their
/// order.
pub proof fn lemma_max_suffix_members(a: Seq<Seq<char>>, b: Seq<Seq<char>>, prefix: char)
    requires
        same_members(a, b),
    ensures
        max_suffix(a, prefix) == max_suffix(b, prefix),
{
    lemma_max_suffix(a, prefix);
    lemma_max_suffix(b, prefix);
    let top_a = max_suffix(a, prefix);
    let top_b = max_suffix(b, prefix);
    if top_a > top_b {
        let i = choose|i: int|
            0 <= i < a.len() && numeric_suffix(#[trigger] a[i], prefix) == Some(top_a as u32);
        assert(a.contains(a[i]));
        assert(b.contains(a[i]));
        let j = choose|j: int| 0 <= j < b.len() && b[j] == a[i];
        assert(numeric_suffix(b[j], prefix) == Some(top_a as u32));
    }
    if top_b > top_a {
        let i = choose|i: int|
            0 <= i < b.len() && numeric_suffix(#[trigger] b[i], prefix) == Some(top_b as u32);
        assert(b.contains(b[i]));
        assert(a.contains(b[i]));
        let j = choose|j: int| 0 <= j < a.len() && a[j] == b[i];
        assert(numeric_suffix(a[j], prefix) == Some(top_b as u32));
    }
}

/// The fresh number depends on which identifiers are in use, not on their
/// order.
pub proof fn lemma_fresh_index_members(
    a: Seq<Seq<char>>,
    b: Seq<Seq<char>>,
    prefix: char,
    start: nat,
)
    requires
        same_members(a, b),
    ensures
        fresh_index(a, prefix, start) == fresh_index(b, prefix, start),
{
    lemma_fresh_index(a, prefix, start);
    lemma_fresh_index(b, prefix, start);
    let ra = fresh_index(a, prefix, start);
    let rb = fresh_index(b, prefix, start);
    if ra < rb {
        assert(b.contains(id_text(prefix, ra)));
    }
    if rb < ra {
        assert(a.contains(id_text(prefix, rb)));
    }
}

/// Lists with the same members still have the same members when the same
/// list is put behind each.
pub proof fn lemma_same_members_extend(a: Seq<Seq<char>>, b: Seq<Seq<char>>, more: Seq<Seq<char>>)
    requires
        same_members(a, b),
    ensures
        same_members(a + more, b + more),
{
    assert forall|x: Seq<char>| (a + more).contains(x) <==> (b + more).contains(x) by {
        lemma_concat_contains(a, more, x);
        lemma_concat_contains(b, more, x);
    }
}

proof fn lemma_concat_contains(a: Seq<Seq<char>>, more: Seq<Seq<char>>, x: Seq<char>)
    ensures
        (a + more).contains(x) <==> a.contains(x) || more.contains(x),
{
    let all = a + more;
    if all.contains(x) {
        let i = choose|i: int| 0 <= i < all.len() && all[i] == x;
        if i < a.len() {
            assert(a[i] == x);
        } else {
            assert(more[i - a.len()] == x);
        }
    }
    if a.contains(x) {
        let i = choose|i: int| 0 <= i < a.len() && a[i] == x;
        assert(all[i] == x);
    }
    if more.contains(x) {
        let i = choose|i: int| 0 <= i < more.len() && more[i] == x;
        assert(all[a.len() + i] == x);
    }
}

/// Hands out identifiers that are not in use yet.
pub struct IdAllocator {
    /// The letter that every identifier starts with.
    pub prefix: char,
    /// The identifiers in use: those that were there, then those kept or
    /// handed out since.
    pub used: Vec<String>,
    /// The number that is tried next.
    pub next: u128,
}

impl IdAllocator {
    /// The identifiers in use.
    pub open spec fn used_texts(&self) -> Seq<Seq<char>> {
        texts(self.used@)
    }

    /// Every number that was passed over from 2^32 on is in use.
    pub open spec fn wf(&self) -> bool {
        forall|m: nat|
            0x1_0000_0000 <= m < self.next ==> self.used_texts().contains(
                #[trigger] id_text(self.prefix, m),
            )
    }

    /// An allocator that starts one past the largest number in `existing`.
    pub fn new(prefix: char, existing: &Vec<String>) -> (out: Self)
        ensures
            out.wf(),
            out.prefix == prefix,
            out.used_texts() == texts(existing@),
            out.next == max_suffix(texts(existing@), prefix) + 1,
    {
        let next = next_index(existing, prefix);
        let used = crate::text::clone_texts(existing);
        IdAllocator { prefix, used, next }
    }

    /// Whether `id` is in use.
    pub fn contains(&self, id: &String) -> (found: bool)
        ensures
            found == self.used_texts().contains(id@),
    {
        contains_text(&self.used, id)
    }

    /// Marks `id` as in use.
    pub fn keep(&mut self, id: &String)
        requires
            old(self).wf(),
        ensures
            final(self).wf(),
            final(self).prefix == old(self).prefix,
            final(self).next == old(self).next,
            final(self).used_texts() == old(self).used_texts().push(id@),
    {
        let ghost before = self.used_texts();
        self.used.push(id.clone());
        proof {
            assert(self.used_texts() == before.push(id@));
            assert forall|m: nat| 0x1_0000_0000 <= m < self.next implies self.used_texts().contains(
                #[trigger] id_text(self.prefix, m),
            ) by {
                let k = choose|k: int|
                    0 <= k < before.len() && before[k] == id_text(self.prefix, m);
                assert(self.used_texts()[k] == id_text(self.prefix, m));
            }
        }
    }

    /// Hands out the identifier of the smallest number, from the next one
    /// on, that is not in use, and marks it as in use.
    #[verifier::loop_isolation(false)]
    pub fn allocate(&mut self) -> (id: String)
        requires
            old(self).wf(),
        ensures
            final(self).wf(),
            final(self).prefix == old(self).prefix,
            id@ == id_text(
                old(self).prefix,
                fresh_index(old(self).used_texts(), old(self).prefix, old(self).next as nat),
            ),
            final(self).next == fresh_index(
                old(self).used_texts(),
                old(self).prefix,
                old(self).next as nat,
            ) + 1,
            final(self).used_texts() == old(self).used_texts().push(id@),
    {
        let ghost used = self.used_texts();
        let ghost start = self.next as nat;
        let ghost prefix = self.prefix;
        loop
            invariant
                self.wf(),
                self.prefix == prefix,
                self.used == old(self).used,
                used == self.used_texts(),
                start <= self.next,
                self.next - start <= used.len(),
                forall|m: nat| start <= m < self.next ==> used.contains(#[trigger] id_text(prefix, m)),
                fresh_index(used, prefix, start) == first_free(
                    used,
                    prefix,
                    self.next as nat,
                    (used.len() - (self.next - start)) as nat,
                ),
            decreases used.len() - (self.next - start),
        {
            proof {
                if self.next > 0x1_0000_0000 {
                    lemma_used_run_bounded(used, prefix, 0x1_0000_0000, self.next as nat);
                }
                assert(used.len() == self.used.len());
                assert(self.next <= 0x1_0000_0000 + usize::MAX);
            }
            let candidate = id_string(self.prefix, self.next);
            if !contains_text(&self.used, &candidate) {
                let ghost n = self.next as nat;
                self.used.push(candidate.clone());
                self.next = self.next + 1;
                proof {
                    assert(self.used_texts() == used.push(candidate@));
                    assert forall|m: nat| 0x1_0000_0000 <= m < self.next implies
                        self.used_texts().contains(#[trigger] id_text(prefix, m)) by {
                        if m == n {
                            assert(self.used_texts()[used.len() as int] == id_text(prefix, m));
                        } else {
                            let k = choose|k: int| 0 <= k < used.len() && used[k] == id_text(prefix, m);
                            assert(self.used_texts()[k] == id_text(prefix, m));
                        }
                    }
                }
                return candidate;
            }
            proof {
                lemma_used_run_bounded(used, prefix, start, (self.next + 1) as nat);
            }
            self.next = self.next + 1;
        }
    }
}

} // verus!

//! Character-level text utilities shared by validation, planning and reporting.
//!
//! Identifiers are ordered exactly as Rust orders `String` values: by the
//! lexicographic order of their Unicode scalar values.

use vstd::prelude::*;

verus! {

/// Three-way result of comparing two texts.
#[derive(Clone, Copy, Debug, PartialEq, Eq)]
pub enum Order {
    /// The left text sorts first.
    Less,
    /// Both texts hold the same characters.
    Equal,
    /// The right text sorts first.
    Greater,
}

/// `a` and `b` agree on their first `n` characters.
pub open spec fn agree_upto(a: Seq<char>, b: Seq<char>, n: int) -> bool {
    &&& 0 <= n <= a.len()
    &&& n <= b.len()
    &&& forall|k: int| 0 <= k < n ==> a[k] == b[k]
}

/// Strict lexicographic order on character sequences.
pub open spec fn text_lt(a: Seq<char>, b: Seq<char>) -> bool {
    exists|n: int|
        #![trigger agree_upto(a, b, n)]
        agree_upto(a, b, n) && ((n == a.len() && n < b.len()) || (n < a.len() && n < b.len()
            && (a[n] as int) < (b[n] as int)))
}

/// Every element of `s` sorts strictly before every later element.
pub open spec fn strictly_sorted(s: Seq<Seq<char>>) -> bool {
    forall|i: int, j: int| 0 <= i < j < s.len() ==> text_lt(#[trigger] s[i], #[trigger] s[j])
}

/// The order is irreflexive.
pub proof fn lemma_text_lt_irreflexive(a: Seq<char>)
    ensures
        !text_lt(a, a),
{
}

/// The order is asymmetric.
pub proof fn lemma_text_lt_asymmetric(a: Seq<char>, b: Seq<char>)
    requires
        text_lt(a, b),
    ensures
        !text_lt(b, a),
{
    let n = choose|n: int| #![trigger agree_upto(a, b, n)]
        agree_upto(a, b, n) && ((n == a.len() && n < b.len()) || (n < a.len() && n < b.len()
            && (a[n] as int) < (b[n] as int)));
    if text_lt(b, a) {
        let m = choose|m: int| #![trigger agree_upto(b, a, m)]
            agree_upto(b, a, m) && ((m == b.len() && m < a.len()) || (m < b.len() && m < a.len()
                && (b[m] as int) < (a[m] as int)));
        if m < n {
            assert(a[m] == b[m]);
        } else if n < m {
            assert(a[n] == b[n]);
        }
    }
}

/// The order is transitive.
pub proof fn lemma_text_lt_transitive(a: Seq<char>, b: Seq<char>, c: Seq<char>)
    requires
        text_lt(a, b),
        text_lt(b, c),
    ensures
        text_lt(a, c),
{
    let n = choose|n: int| #![trigger agree_upto(a, b, n)]
        agree_upto(a, b, n) && ((n == a.len() && n < b.len()) || (n < a.len() && n < b.len()
            && (a[n] as int) < (b[n] as int)));
    let m = choose|m: int| #![trigger agree_upto(b, c, m)]
        agree_upto(b, c, m) && ((m == b.len() && m < c.len()) || (m < b.len() && m < c.len()
            && (b[m] as int) < (c[m] as int)));
    let p = if n < m { n } else { m };
    assert(agree_upto(a, c, p));
}

/// Two different sequences are ordered one way or the other.
pub proof fn lemma_text_lt_total(a: Seq<char>, b: Seq<char>)
    requires
        a != b,
    ensures
        text_lt(a, b) || text_lt(b, a),
{
    if forall|k: int| 0 <= k < a.len() && k < b.len() ==> a[k] == b[k] {
        if a.len() == b.len() {
            assert(a =~= b);
        } else if a.len() < b.len() {
            assert(agree_upto(a, b, a.len() as int));
        } else {
            assert(agree_upto(b, a, b.len() as int));
        }
    } else {
        let k = choose|k: int| 0 <= k < a.len() && k < b.len() && a[k] != b[k];
        lemma_first_difference(a, b, k);
    }
}

/// Two strictly sorted sequences with the same elements are equal.
pub proof fn lemma_sorted_unique(a: Seq<Seq<char>>, b: Seq<Seq<char>>)
    requires
        strictly_sorted(a),
        strictly_sorted(b),
        forall|x: Seq<char>| a.contains(x) <==> b.contains(x),
    ensures
        a == b,
    decreases a.len(),
{
    if a.len() == 0 {
        if b.len() > 0 {
            assert(b.contains(b[0]));
        }
        assert(a =~= b);
    } else if b.len() == 0 {
        assert(a.contains(a[0]));
    } else {
        assert(a.contains(a[0]));
        assert(b.contains(b[0]));
        let j = choose|j: int| 0 <= j < b.len() && b[j] == a[0];
        let i = choose|i: int| 0 <= i < a.len() && a[i] == b[0];
        if j > 0 {
            if i > 0 {
                lemma_text_lt_transitive(b[0], b[j], a[i]);
                lemma_text_lt_irreflexive(b[0]);
            } else {
                lemma_text_lt_irreflexive(b[0]);
            }
        }
        assert(a[0] == b[0]);
        let ra = a.skip(1);
        let rb = b.skip(1);
        assert forall|x: Seq<char>| ra.contains(x) <==> rb.contains(x) by {
            if ra.contains(x) {
                let p = choose|p: int| 0 <= p < ra.len() && ra[p] == x;
                assert(a[p + 1] == x);
                assert(a.contains(x));
                let q = choose|q: int| 0 <= q < b.len() && b[q] == x;
                if q == 0 {
                    lemma_text_lt_irreflexive(x);
                }
                assert(rb[q - 1] == x);
            }
            if rb.contains(x) {
                let p = choose|p: int| 0 <= p < rb.len() && rb[p] == x;
                assert(b[p + 1] == x);
                assert(b.contains(x));
                let q = choose|q: int| 0 <= q < a.len() && a[q] == x;
                if q == 0 {
                    lemma_text_lt_irreflexive(x);
                }
                assert(ra[q - 1] == x);
            }
        }
        assert forall|i: int, j: int| 0 <= i < j < ra.len() implies text_lt(#[trigger] ra[i], #[trigger] ra[j]) by {
            assert(ra[i] == a[i + 1] && ra[j] == a[j + 1]);
        }
        assert forall|i: int, j: int| 0 <= i < j < rb.len() implies text_lt(#[trigger] rb[i], #[trigger] rb[j]) by {
            assert(rb[i] == b[i + 1] && rb[j] == b[j + 1]);
        }
        lemma_sorted_unique(ra, rb);
        assert(a =~= seq![a[0]] + ra);
        assert(b =~= seq![b[0]] + rb);
    }
}

proof fn lemma_first_difference(a: Seq<char>, b: Seq<char>, k: int)
    requires
        0 <= k < a.len(),
        k < b.len(),
        a[k] != b[k],
    ensures
        text_lt(a, b) || text_lt(b, a),
    decreases k,
{
    if forall|j: int| 0 <= j < k ==> a[j] == b[j] {
        assert(agree_upto(a, b, k));
        assert(agree_upto(b, a, k));
        if (a[k] as int) < (b[k] as int) {
        } else {
            assert((a[k] as int) != (b[k] as int));
        }
    } else {
        let j = choose|j: int| 0 <= j < k && a[j] != b[j];
        lemma_first_difference(a, b, j);
    }
}

/// Compares two texts in the order used for every identifier index.
pub fn compare_text(a: &str, b: &str) -> (r: Order)
    ensures
        r == Order::Less <==> text_lt(a@, b@),
        r == Order::Equal <==> a@ == b@,
        r == Order::Greater <==> text_lt(b@, a@),
{
    let la = a.unicode_len();
    let lb = b.unicode_len();
    let mut i: usize = 0;
    while i < la && i < lb
        invariant
            la == a@.len(),
            lb == b@.len(),
            i <= la,
            i <= lb,
            agree_upto(a@, b@, i as int),
        decreases la - i,
    {
        let ca = a.get_char(i);
        let cb = b.get_char(i);
        if (ca as u32) < (cb as u32) {
            proof {
                lemma_text_lt_asymmetric(a@, b@);
            }
            assert(text_lt(a@, b@));
            return Order::Less;
        }
        if (cb as u32) < (ca as u32) {
            assert(agree_upto(b@, a@, i as int));
            assert(text_lt(b@, a@));
            proof {
                lemma_text_lt_asymmetric(b@, a@);
            }
            return Order::Greater;
        }
        assert((ca as u32) == (cb as u32));
        i = i + 1;
    }
    if la < lb {
        assert(text_lt(a@, b@));
        proof {
            lemma_text_lt_asymmetric(a@, b@);
        }
        Order::Less
    } else if lb < la {
        assert(agree_upto(b@, a@, i as int));
        assert(text_lt(b@, a@));
        proof {
            lemma_text_lt_asymmetric(b@, a@);
        }
        Order::Greater
    } else {
        assert(a@ =~= b@);
        proof {
            lemma_text_lt_irreflexive(a@);
        }
        Order::Equal
    }
}

/// Whether two texts hold the same characters.
pub fn text_eq(a: &str, b: &str) -> (r: bool)
    ensures
        r == (a@ == b@),
{
    match compare_text(a, b) {
        Order::Equal => true,
        _ => false,
    }
}

/// A value indexed by a textual key.
pub trait Keyed {
    /// The key, as a character sequence.
    spec fn key_view(&self) -> Seq<char>;

    /// Borrows the key.
    fn key(&self) -> (k: &str)
        ensures
            k@ == self.key_view(),
    ;
}

impl Keyed for String {
    open spec fn key_view(&self) -> Seq<char> {
        self@
    }

    fn key(&self) -> (k: &str) {
        self.as_str()
    }
}

impl<V> Keyed for (String, V) {
    open spec fn key_view(&self) -> Seq<char> {
        self.0@
    }

    fn key(&self) -> (k: &str) {
        self.0.as_str()
    }
}

/// The keys of `items`, in order.
pub open spec fn keys_of<T: Keyed>(items: Seq<T>) -> Seq<Seq<char>> {
    Seq::new(items.len(), |i: int| items[i].key_view())
}

/// The views of a sequence of strings.
pub open spec fn views(items: Seq<String>) -> Seq<Seq<char>> {
    Seq::new(items.len(), |i: int| items[i]@)
}

/// Position of the entry whose key is `key`.
pub open spec fn entry_of<T: Keyed>(items: Seq<T>, key: Seq<char>) -> int {
    choose|e: int| 0 <= e < items.len() && items[e].key_view() == key
}

/// Distinct positions of a strictly sorted sequence hold distinct texts.
pub proof fn lemma_sorted_distinct(s: Seq<Seq<char>>, i: int, j: int)
    requires
        strictly_sorted(s),
        0 <= i < s.len(),
        0 <= j < s.len(),
        i != j,
    ensures
        s[i] != s[j],
{
    if i < j {
        assert(text_lt(s[i], s[j]));
    } else {
        assert(text_lt(s[j], s[i]));
    }
    lemma_text_lt_irreflexive(s[i]);
}

/// Finds the position of `key` among strictly sorted keys.
pub fn find_key<T: Keyed>(items: &Vec<T>, key: &str) -> (r: Option<usize>)
    requires
        strictly_sorted(keys_of(items@)),
    ensures
        r matches Some(i) ==> i < items@.len() && items@[i as int].key_view() == key@,
        r is None <==> !keys_of(items@).contains(key@),
{
    let ghost ks = keys_of(items@);
    let mut lo: usize = 0;
    let mut hi: usize = items.len();
    while lo < hi
        invariant
            ks == keys_of(items@),
            strictly_sorted(ks),
            lo <= hi <= items@.len(),
            forall|k: int| 0 <= k < lo ==> text_lt(#[trigger] ks[k], key@),
            forall|k: int| hi <= k < items@.len() ==> text_lt(key@, #[trigger] ks[k]),
        decreases hi - lo,
    {
        let mid = lo + (hi - lo) / 2;
        match compare_text(items[mid].key(), key) {
            Order::Equal => {
                assert(ks[mid as int] == key@);
                return Some(mid);
            },
            Order::Less => {
                assert forall|k: int| 0 <= k < mid + 1 implies text_lt(#[trigger] ks[k], key@) by {
                    if k < mid {
                        lemma_text_lt_transitive(ks[k], ks[mid as int], key@);
                    }
                }
                lo = mid + 1;
            },
            Order::Greater => {
                assert forall|k: int| mid <= k < items@.len() implies text_lt(key@, #[trigger] ks[k]) by {
                    if k > mid {
                        lemma_text_lt_transitive(key@, ks[mid as int], ks[k]);
                    }
                }
                hi = mid;
            },
        }
    }
    assert forall|k: int| 0 <= k < ks.len() implies ks[k] != key@ by {
        if k < lo {
            lemma_text_lt_irreflexive(key@);
        } else {
            lemma_text_lt_irreflexive(key@);
        }
    }
    None
}

/// Concatenation of `parts` with `sep` between neighbours.
pub open spec fn join_texts(parts: Seq<Seq<char>>, sep: Seq<char>) -> Seq<char>
    decreases parts.len(),
{
    if parts.len() == 0 {
        Seq::empty()
    } else if parts.len() == 1 {
        parts[0]
    } else {
        join_texts(parts.drop_last(), sep) + sep + parts.last()
    }
}

/// Joins strings with a separator.
pub fn join_strings(parts: &Vec<String>, sep: &str) -> (r: String)
    ensures
        r@ == join_texts(views(parts@), sep@),
{
    let mut r = String::new();
    let mut i: usize = 0;
    while i < parts.len()
        invariant
            i <= parts@.len(),
            r@ == join_texts(views(parts@).take(i as int), sep@),
        decreases parts@.len() - i,
    {
        assert(views(parts@).take(i + 1).drop_last() =~= views(parts@).take(i as int));
        if i > 0 {
            r.append(sep);
        } else {
            assert(r@ =~= Seq::<char>::empty());
        }
        r.append(parts[i].as_str());
        i = i + 1;
    }
    assert(views(parts@).take(parts@.len() as int) =~= views(parts@));
    r
}

/// A fresh string holding `s`.
pub fn owned(s: &str) -> (r: String)
    ensures
        r@ == s@,
{
    String::from_str(s)
}

/// Concatenation of two texts as a new string.
pub fn concat2(a: &str, b: &str) -> (r: String)
    ensures
        r@ == a@ + b@,
{
    let mut r = String::from_str(a);
    r.append(b);
    r
}

/// The characters of `s`, in order.
pub fn char_vec(s: &str) -> (r: Vec<char>)
    ensures
        r@ == s@,
{
    broadcast use vstd::string::group_string_axioms;
    let n = s.unicode_len();
    let mut it = s.chars();
    let mut r: Vec<char> = Vec::new();
    let mut i: usize = 0;
    while i < n
        invariant
            n == s@.len(),
            i <= n,
            r@.len() == i,
            r@ + vstd::std_specs::iter::IteratorSpec::remaining(&it) == s@,
        decreases n - i,
    {
        let ghost rest = vstd::std_specs::iter::IteratorSpec::remaining(&it);
        let ghost done = r@;
        assert(rest.len() > 0);
        match it.next() {
            Some(c) => {
                r.push(c);
                assert(r@ + vstd::std_specs::iter::IteratorSpec::remaining(&it) =~= done + rest);
            },
            None => {
                assert(false);
            },
        }
        i = i + 1;
    }
    assert(r@ =~= s@);
    r
}

/// The text made of `chars[from..to]`.
///
/// Trusted: collecting characters into a `String` keeps them in order.
#[verifier::external_body]
pub fn text_of(chars: &Vec<char>, from: usize, to: usize) -> (r: String)
    requires
        from <= to <= chars@.len(),
    ensures
        r@ == chars@.subrange(from as int, to as int),
{
    chars[from..to].iter().collect()
}

/// The fields of `s` between occurrences of `sep`, as `str::split(sep)` yields them.
pub open spec fn split_fields(s: Seq<char>, sep: char) -> Seq<Seq<char>>
    decreases s.len(),
{
    if s.len() == 0 {
        seq![Seq::empty()]
    } else {
        let head = split_fields(s.drop_last(), sep);
        if s.last() == sep {
            head.push(Seq::empty())
        } else {
            head.update(head.len() - 1, head.last().push(s.last()))
        }
    }
}

/// The fields of `s` between NUL characters, as `str::split('\0')` yields them.
pub open spec fn nul_fields(s: Seq<char>) -> Seq<Seq<char>> {
    split_fields(s, '\0')
}

/// Splitting never yields an empty list of fields.
pub proof fn lemma_nul_fields_nonempty(s: Seq<char>)
    ensures
        nul_fields(s).len() >= 1,
{
    lemma_split_fields_nonempty(s, '\0');
}

/// Splitting never yields an empty list of fields, whatever the separator.
pub proof fn lemma_split_fields_nonempty(s: Seq<char>, sep: char)
    ensures
        split_fields(s, sep).len() >= 1,
    decreases s.len(),
{
    if s.len() > 0 {
        lemma_split_fields_nonempty(s.drop_last(), sep);
    }
}

/// Splits `s` at each occurrence of `sep`.
pub fn split_on(s: &str, sep: char) -> (r: Vec<String>)
    ensures
        views(r@) == split_fields(s@, sep),
{
    let cs = char_vec(s);
    let mut r: Vec<String> = Vec::new();
    let mut start: usize = 0;
    let mut i: usize = 0;
    assert(cs@.take(0) =~= Seq::<char>::empty());
    assert(views(r@).push(cs@.subrange(0, 0)) =~= seq![Seq::<char>::empty()]);
    while i < cs.len()
        invariant
            cs@ == s@,
            start <= i <= cs@.len(),
            split_fields(cs@.take(i as int), sep) == views(r@).push(cs@.subrange(start as int, i as int)),
            forall|k: int| start <= k < i ==> cs@[k] != sep,
        decreases cs@.len() - i,
    {
        assert(cs@.take(i + 1).drop_last() =~= cs@.take(i as int));
        if cs[i] == sep {
            let ghost before = r@;
            let ghost head = split_fields(cs@.take(i as int), sep);
            assert(cs@.take(i + 1).last() == sep);
            assert(split_fields(cs@.take(i + 1), sep) == head.push(Seq::<char>::empty()));
            r.push(text_of(&cs, start, i));
            assert(views(r@) =~= views(before).push(cs@.subrange(start as int, i as int)));
            start = i + 1;
            assert(cs@.subrange(start as int, i + 1) =~= Seq::<char>::empty());
            assert(split_fields(cs@.take(i + 1), sep) =~= views(r@).push(cs@.subrange(start as int, i + 1)));
        } else {
            assert(cs@.subrange(start as int, i + 1) =~= cs@.subrange(start as int, i as int).push(cs@[i as int]));
            assert(split_fields(cs@.take(i + 1), sep) =~= views(r@).push(cs@.subrange(start as int, i + 1)));
        }
        i = i + 1;
    }
    let ghost before = r@;
    r.push(text_of(&cs, start, cs.len()));
    assert(cs@.take(cs@.len() as int) =~= cs@);
    assert(views(r@) =~= views(before).push(cs@.subrange(start as int, cs@.len() as int)));
    r
}

/// Splits `s` at each NUL character.
pub fn split_nul(s: &str) -> (r: Vec<String>)
    ensures
        views(r@) == nul_fields(s@),
{
    split_on(s, '\0')
}

/// `a` sorts before `b` or equals it.
pub open spec fn text_le(a: Seq<char>, b: Seq<char>) -> bool {
    a == b || text_lt(a, b)
}

/// Every element of `s` sorts before or equals every later element.
pub open spec fn sorted_texts(s: Seq<Seq<char>>) -> bool {
    forall|i: int, j: int| 0 <= i < j < s.len() ==> text_le(#[trigger] s[i], #[trigger] s[j])
}

/// `s` without leading white space.
pub open spec fn trim_start(s: Seq<char>) -> Seq<char>
    decreases s.len(),
{
    if s.len() > 0 && is_white_space(s[0]) {
        trim_start(s.drop_first())
    } else {
        s
    }
}

/// `s` without trailing white space.
pub open spec fn trim_end(s: Seq<char>) -> Seq<char>
    decreases s.len(),
{
    if s.len() > 0 && is_white_space(s.last()) {
        trim_end(s.drop_last())
    } else {
        s
    }
}

/// `s` without leading and trailing white space, as `str::trim` leaves it.
pub open spec fn trimmed(s: Seq<char>) -> Seq<char> {
    trim_end(trim_start(s))
}

proof fn lemma_trim_start_skip(s: Seq<char>, a: int)
    requires
        0 <= a <= s.len(),
        forall|k: int| 0 <= k < a ==> is_white_space(#[trigger] s[k]),
        a == s.len() || !is_white_space(s[a]),
    ensures
        trim_start(s) == s.skip(a),
    decreases a,
{
    if a > 0 {
        assert forall|k: int| 0 <= k < a - 1 implies is_white_space(#[trigger] s.drop_first()[k]) by {
            assert(s.drop_first()[k] == s[k + 1]);
        }
        lemma_trim_start_skip(s.drop_first(), a - 1);
        assert(s.drop_first().skip(a - 1) =~= s.skip(a));
    } else {
        assert(s.skip(0) =~= s);
    }
}

proof fn lemma_trim_end_take(s: Seq<char>, b: int)
    requires
        0 <= b <= s.len(),
        forall|k: int| b <= k < s.len() ==> is_white_space(#[trigger] s[k]),
        b == 0 || !is_white_space(s[b - 1]),
    ensures
        trim_end(s) == s.take(b),
    decreases s.len() - b,
{
    if b < s.len() {
        assert forall|k: int| b <= k < s.len() - 1 implies is_white_space(#[trigger] s.drop_last()[k]) by {
            assert(s.drop_last()[k] == s[k]);
        }
        lemma_trim_end_take(s.drop_last(), b);
        assert(s.drop_last().take(b) =~= s.take(b));
    } else {
        assert(s.take(b) =~= s);
    }
}

/// Returns `s` without leading and trailing white space.
pub fn trim(s: &str) -> (r: String)
    ensures
        r@ == trimmed(s@),
{
    let cs = char_vec(s);
    let mut a: usize = 0;
    while a < cs.len() && char_is_white_space(cs[a])
        invariant
            a <= cs@.len(),
            forall|k: int| 0 <= k < a ==> is_white_space(#[trigger] cs@[k]),
        decreases cs@.len() - a,
    {
        a = a + 1;
    }
    let mut b: usize = cs.len();
    while b > a && char_is_white_space(cs[b - 1])
        invariant
            a <= b <= cs@.len(),
            forall|k: int| b <= k < cs@.len() ==> is_white_space(#[trigger] cs@[k]),
        decreases b - a,
    {
        b = b - 1;
    }
    proof {
        lemma_trim_start_skip(s@, a as int);
        let rest = s@.skip(a as int);
        assert forall|k: int| b - a <= k < rest.len() implies is_white_space(#[trigger] rest[k]) by {
            assert(rest[k] == cs@[k + a]);
        }
        if b > a {
            assert(rest[b - a - 1] == cs@[b - 1]);
        }
        lemma_trim_end_take(rest, b - a);
        assert(rest.take(b - a) =~= cs@.subrange(a as int, b as int));
    }
    text_of(&cs, a, b)
}

/// Whether `a` sorts strictly before `b`.
pub fn sorts_before(a: &str, b: &str) -> (r: bool)
    ensures
        r == text_lt(a@, b@),
{
    match compare_text(a, b) {
        Order::Less => true,
        _ => false,
    }
}

/// Returns the texts of `v` in ascending order, duplicates kept.
pub fn sort_texts(v: &Vec<String>) -> (r: Vec<String>)
    ensures
        sorted_texts(views(r@)),
        views(r@).to_multiset() == views(v@).to_multiset(),
{
    broadcast use vstd::seq_lib::group_to_multiset_ensures;
    let mut r: Vec<String> = Vec::new();
    let mut i: usize = 0;
    while i < v.len()
        invariant
            i <= v@.len(),
            sorted_texts(views(r@)),
            views(r@).to_multiset() == views(v@.take(i as int)).to_multiset(),
        decreases v@.len() - i,
    {
        let ghost rs = views(r@);
        let x = owned(v[i].as_str());
        let mut p: usize = 0;
        while p < r.len() && !sorts_before(x.as_str(), r[p].as_str())
            invariant
                rs == views(r@),
                x@ == v@[i as int]@,
                p <= r@.len(),
                forall|k: int| 0 <= k < p ==> text_le(#[trigger] rs[k], x@),
            decreases r@.len() - p,
        {
            proof {
                if x@ != rs[p as int] {
                    lemma_text_lt_total(x@, rs[p as int]);
                }
            }
            p = p + 1;
        }
        proof {
            if p < r@.len() {
                assert forall|k: int| p <= k < rs.len() implies text_lt(x@, #[trigger] rs[k]) by {
                    if k > p {
                        assert(text_le(rs[p as int], rs[k]));
                        if rs[p as int] != rs[k] {
                            assert(text_lt(rs[p as int], rs[k]));
                            lemma_text_lt_transitive(x@, rs[p as int], rs[k]);
                        }
                    }
                }
            }
        }
        let ghost xv = x@;
        r.insert(p, x);
        proof {
            let ns = views(r@);
            assert(ns =~= rs.insert(p as int, xv));
            assert forall|a: int, b: int| 0 <= a < b < ns.len() implies text_le(#[trigger] ns[a], #[trigger] ns[b]) by {
                if a < p && b == p {
                } else if a == p && b > p {
                } else if a < p && b > p {
                    assert(text_le(rs[a], xv));
                    assert(text_lt(xv, rs[b - 1]));
                    if rs[a] != xv {
                        lemma_text_lt_transitive(rs[a], xv, rs[b - 1]);
                    }
                } else if b < p {
                } else {
                    assert(ns[a] == rs[a - 1] && ns[b] == rs[b - 1]);
                }
            }
            vstd::seq_lib::to_multiset_insert(rs, p as int, xv);
            assert(views(v@.take(i + 1)) =~= views(v@.take(i as int)).push(xv));
            vstd::seq_lib::to_multiset_build(views(v@.take(i as int)), xv);
        }
        i = i + 1;
    }
    assert(v@.take(v@.len() as int) =~= v@);
    r
}

/// Inserts `item` into a sequence with strictly sorted keys unless an item
/// with the same key is already present.
///
/// Returns whether the key was absent and the item has been inserted.
pub fn insert_sorted<T: Keyed>(items: &mut Vec<T>, item: T) -> (inserted: bool)
    requires
        strictly_sorted(keys_of(old(items)@)),
    ensures
        strictly_sorted(keys_of(final(items)@)),
        inserted == !keys_of(old(items)@).contains(item.key_view()),
        forall|x: Seq<char>| keys_of(final(items)@).contains(x) <==> (keys_of(old(items)@).contains(x) || x == item.key_view()),
        final(items)@.len() == old(items)@.len() + (if inserted { 1int } else { 0int }),
        !inserted ==> final(items)@ == old(items)@,
        inserted ==> exists|p: int| 0 <= p <= old(items)@.len() && final(items)@ == old(items)@.insert(p, item),
{
    let ghost key = item.key_view();
    let ghost ks = keys_of(items@);
    let mut lo: usize = 0;
    let mut hi: usize = items.len();
    while lo < hi
        invariant
            key == item.key_view(),
            ks == keys_of(items@),
            strictly_sorted(ks),
            lo <= hi <= items@.len(),
            forall|k: int| 0 <= k < lo ==> text_lt(#[trigger] ks[k], key),
            forall|k: int| hi <= k < items@.len() ==> text_lt(key, #[trigger] ks[k]),
        decreases hi - lo,
    {
        let mid = lo + (hi - lo) / 2;
        match compare_text(items[mid].key(), item.key()) {
            Order::Equal => {
                assert(ks[mid as int] == key);
                return false;
            },
            Order::Less => {
                assert forall|k: int| 0 <= k < mid + 1 implies text_lt(#[trigger] ks[k], key) by {
                    if k < mid {
                        lemma_text_lt_transitive(ks[k], ks[mid as int], key);
                    }
                }
                lo = mid + 1;
            },
            Order::Greater => {
                assert forall|k: int| mid <= k < items@.len() implies text_lt(key, #[trigger] ks[k]) by {
                    if k > mid {
                        lemma_text_lt_transitive(key, ks[mid as int], ks[k]);
                    }
                }
                hi = mid;
            },
        }
    }
    assert(!ks.contains(key)) by {
        lemma_text_lt_irreflexive(key);
    }
    let ghost kv = key;
    let ghost before = items@;
    items.insert(lo, item);
    assert(items@ == before.insert(lo as int, item));
    let ghost nk = keys_of(items@);
    assert(nk =~= ks.insert(lo as int, kv));
    assert forall|i: int, j: int| 0 <= i < j < nk.len() implies text_lt(#[trigger] nk[i], #[trigger] nk[j]) by {
        if j < lo {
        } else if i > lo {
        } else if i == lo {
        } else if j == lo {
        } else {
            assert(text_lt(ks[i], ks[j - 1]));
        }
        if i < lo && j > lo {
            lemma_text_lt_transitive(ks[i], kv, ks[j - 1]);
        }
    }
    assert forall|x: Seq<char>| nk.contains(x) <==> (ks.contains(x) || x == kv) by {
        if nk.contains(x) {
            let w = choose|w: int| 0 <= w < nk.len() && nk[w] == x;
            if w < lo {
                assert(ks[w] == x);
            } else if w > lo {
                assert(ks[w - 1] == x);
            }
        }
        if ks.contains(x) {
            let w = choose|w: int| 0 <= w < ks.len() && ks[w] == x;
            if w < lo {
                assert(nk[w] == x);
            } else {
                assert(nk[w + 1] == x);
            }
        }
        if x == kv {
            assert(nk[lo as int] == x);
        }
    }
    true
}

/// Appends copies of `values` to `out`.
pub fn extend_strings(out: &mut Vec<String>, values: &Vec<String>)
    ensures
        views(final(out)@) == views(old(out)@) + views(values@),
{
    let ghost start = views(out@);
    let mut i: usize = 0;
    while i < values.len()
        invariant
            i <= values@.len(),
            views(out@) == start + views(values@).take(i as int),
        decreases values@.len() - i,
    {
        let ghost before = out@;
        let item = values[i].clone();
        assert(item@ == values@[i as int]@);
        out.push(item);
        assert(out@ == before.push(item));
        assert(views(out@) =~= views(before).push(item@));
        assert(views(values@).take(i + 1) =~= views(values@).take(i as int).push(values@[i as int]@));
        assert(views(out@) =~= start + views(values@).take(i + 1));
        i = i + 1;
    }
    assert(views(values@).take(values@.len() as int) =~= views(values@));
}

/// The concatenation of a sequence of message lists.
pub open spec fn flat(parts: Seq<Seq<Seq<char>>>) -> Seq<Seq<char>>
    decreases parts.len(),
{
    if parts.len() == 0 {
        Seq::empty()
    } else {
        flat(parts.drop_last()) + parts.last()
    }
}

/// One more part extends the concatenation of a prefix by that part.
pub proof fn lemma_flat_take(parts: Seq<Seq<Seq<char>>>, i: int)
    requires
        0 <= i < parts.len(),
    ensures
        flat(parts.take(i + 1)) == flat(parts.take(i)) + parts[i],
{
    assert(parts.take(i + 1).drop_last() =~= parts.take(i));
}

/// A concatenation without messages has no message in any part.
pub proof fn lemma_flat_empty(parts: Seq<Seq<Seq<char>>>, k: int)
    requires
        flat(parts).len() == 0,
        0 <= k < parts.len(),
    ensures
        parts[k].len() == 0,
    decreases parts.len(),
{
    if k < parts.len() - 1 {
        assert(parts.drop_last()[k] == parts[k]);
        lemma_flat_empty(parts.drop_last(), k);
    }
}

/// A list of messages that holds `message` exactly when `condition` holds.
pub open spec fn message_if(condition: bool, message: Seq<char>) -> Seq<Seq<char>> {
    if condition {
        seq![message]
    } else {
        Seq::empty()
    }
}

/// The digit character for `d`.
pub open spec fn digit_char(d: int) -> char {
    (('0' as int) + d) as char
}

/// Decimal notation of a natural number, without leading zeros.
pub open spec fn decimal_text(n: nat) -> Seq<char>
    decreases n,
{
    if n < 10 {
        seq![digit_char(n as int)]
    } else {
        decimal_text(n / 10) + seq![digit_char((n % 10) as int)]
    }
}

fn digit_text(d: u64) -> (r: &'static str)
    requires
        d < 10,
    ensures
        r@ == seq![digit_char(d as int)],
{
    proof {
        reveal_strlit("0");
        reveal_strlit("1");
        reveal_strlit("2");
        reveal_strlit("3");
        reveal_strlit("4");
        reveal_strlit("5");
        reveal_strlit("6");
        reveal_strlit("7");
        reveal_strlit("8");
        reveal_strlit("9");
    }
    if d == 0 {
        "0"
    } else if d == 1 {
        "1"
    } else if d == 2 {
        "2"
    } else if d == 3 {
        "3"
    } else if d == 4 {
        "4"
    } else if d == 5 {
        "5"
    } else if d == 6 {
        "6"
    } else if d == 7 {
        "7"
    } else if d == 8 {
        "8"
    } else {
        "9"
    }
}

/// Appends the decimal notation of `n` to `out`.
pub fn push_decimal(out: &mut String, n: u64)
    ensures
        final(out)@ == old(out)@ + decimal_text(n as nat),
    decreases n,
{
    if n >= 10 {
        push_decimal(out, n / 10);
    }
    out.append(digit_text(n % 10));
}

/// The decimal notation of `n`.
pub fn decimal(n: u64) -> (r: String)
    ensures
        r@ == decimal_text(n as nat),
{
    let mut r = String::new();
    push_decimal(&mut r, n);
    r
}

/// A Unicode `White_Space` character, as `char::is_whitespace` classifies it.
pub open spec fn is_white_space(c: char) -> bool {
    ||| ('\u{9}' <= c <= '\u{d}')
    ||| c == ' '
    ||| c == '\u{85}'
    ||| c == '\u{a0}'
    ||| c == '\u{1680}'
    ||| ('\u{2000}' <= c <= '\u{200a}')
    ||| c == '\u{2028}'
    ||| c == '\u{2029}'
    ||| c == '\u{202f}'
    ||| c == '\u{205f}'
    ||| c == '\u{3000}'
}

/// Classifies a character as Unicode white space.
pub fn char_is_white_space(c: char) -> (r: bool)
    ensures
        r == is_white_space(c),
{
    ('\u{9}' <= c && c <= '\u{d}') || c == ' ' || c == '\u{85}' || c == '\u{a0}' || c == '\u{1680}' || ('\u{2000}'
        <= c && c <= '\u{200a}') || c == '\u{2028}' || c == '\u{2029}' || c == '\u{202f}' || c == '\u{205f}'
        || c == '\u{3000}'
}

/// Text made of white space only (the empty text included).
pub open spec fn is_blank(s: Seq<char>) -> bool {
    forall|i: int| 0 <= i < s.len() ==> is_white_space(#[trigger] s[i])
}

/// Decides whether a text is blank once white space is trimmed.
pub fn blank(s: &str) -> (r: bool)
    ensures
        r == is_blank(s@),
{
    let n = s.unicode_len();
    let mut i: usize = 0;
    while i < n
        invariant
            n == s@.len(),
            i <= n,
            forall|k: int| 0 <= k < i ==> is_white_space(#[trigger] s@[k]),
        decreases n - i,
    {
        if !char_is_white_space(s.get_char(i)) {
            return false;
        }
        i = i + 1;
    }
    true
}

/// `s` holds the NUL character.
pub open spec fn holds_nul(s: Seq<char>) -> bool {
    s.contains('\0')
}

/// Decides whether a text holds the NUL character.
pub fn has_nul(s: &str) -> (r: bool)
    ensures
        r == holds_nul(s@),
{
    let n = s.unicode_len();
    let mut i: usize = 0;
    while i < n
        invariant
            n == s@.len(),
            i <= n,
            forall|k: int| 0 <= k < i ==> s@[k] != '\0',
        decreases n - i,
    {
        if s.get_char(i) == '\0' {
            assert(s@[i as int] == '\0');
            return true;
        }
        i = i + 1;
    }
    false
}

/// The `Debug` rendering of a text: quoted, with escapes, as `{:?}` prints it.
pub uninterp spec fn debug_quoted(s: Seq<char>) -> Seq<char>;

/// Renders a text as `format!("{:?}", s)` does.
///
/// Trusted: the result is std's `Debug` formatting of `s`.
#[verifier::external_body]
pub fn debug_text(s: &str) -> (r: String)
    ensures
        r@ == debug_quoted(s@),
{
    format!("{:?}", s)
}

/// The concatenation of a sequence of sequences.
pub open spec fn joined<A>(parts: Seq<Seq<A>>) -> Seq<A>
    decreases parts.len(),
{
    if parts.len() == 0 {
        Seq::empty()
    } else {
        joined(parts.drop_last()) + parts.last()
    }
}

/// One more part extends the concatenation of a prefix by that part.
pub proof fn lemma_joined_take<A>(parts: Seq<Seq<A>>, i: int)
    requires
        0 <= i < parts.len(),
    ensures
        joined(parts.take(i + 1)) == joined(parts.take(i)) + parts[i],
{
    assert(parts.take(i + 1).drop_last() =~= parts.take(i));
}

/// Decimal notation of an integer, with a leading minus sign when negative.
pub open spec fn signed_text(n: int) -> Seq<char> {
    if n < 0 {
        "-"@ + decimal_text((-n) as nat)
    } else {
        decimal_text(n as nat)
    }
}

/// Appends the decimal notation of a signed integer to `out`.
pub fn push_signed(out: &mut String, n: i64)
    requires
        n > i64::MIN,
    ensures
        final(out)@ == old(out)@ + signed_text(n as int),
{
    if n < 0 {
        out.append("-");
        push_decimal(out, (-n) as u64);
    } else {
        push_decimal(out, n as u64);
    }
}

} // verus!

//! Texts as sequences of characters: the lexicographic order that fixes the
//! layout of every export, decimal rendering of integers, and the stripping
//! of the quoting layer around display names.

use vstd::prelude::*;
use vstd::std_specs::iter::IteratorSpec;
use vstd::string::*;

verus! {

/// Strict lexicographic order on texts, characters compared by code point.
pub open spec fn lex_lt(a: Seq<char>, b: Seq<char>) -> bool
    decreases a.len(),
{
    if b.len() == 0 {
        false
    } else if a.len() == 0 {
        true
    } else if a[0] == b[0] {
        lex_lt(a.drop_first(), b.drop_first())
    } else {
        a[0] < b[0]
    }
}

/// No text comes before itself.
pub proof fn lemma_lex_irreflexive(a: Seq<char>)
    ensures
        !lex_lt(a, a),
    decreases a.len(),
{
    if a.len() > 0 {
        lemma_lex_irreflexive(a.drop_first());
    }
}

/// Of two texts at most one comes before the other.
pub proof fn lemma_lex_asymmetric(a: Seq<char>, b: Seq<char>)
    requires
        lex_lt(a, b),
    ensures
        !lex_lt(b, a),
    decreases a.len(),
{
    if a.len() > 0 && b.len() > 0 && a[0] == b[0] {
        lemma_lex_asymmetric(a.drop_first(), b.drop_first());
    }
}

/// The order is transitive.
pub proof fn lemma_lex_transitive(a: Seq<char>, b: Seq<char>, c: Seq<char>)
    requires
        lex_lt(a, b),
        lex_lt(b, c),
    ensures
        lex_lt(a, c),
    decreases a.len(),
{
    if a.len() > 0 && a[0] == b[0] && b[0] == c[0] {
        lemma_lex_transitive(a.drop_first(), b.drop_first(), c.drop_first());
    }
}

/// Two different texts are always ordered one way or the other.
pub proof fn lemma_lex_total(a: Seq<char>, b: Seq<char>)
    ensures
        a == b || lex_lt(a, b) || lex_lt(b, a),
    decreases a.len(),
{
    if a.len() == 0 || b.len() == 0 {
        if a.len() == 0 && b.len() == 0 {
            assert(a =~= b);
        }
    } else if a[0] == b[0] {
        lemma_lex_total(a.drop_first(), b.drop_first());
        if a.drop_first() == b.drop_first() {
            assert(a =~= seq![a[0]] + a.drop_first());
            assert(b =~= seq![b[0]] + b.drop_first());
        }
    }
}

/// Whether `a` comes strictly before `b` in lexicographic order.
pub fn str_lt(a: &str, b: &str) -> (r: bool)
    ensures
        r == lex_lt(a@, b@),
{
    let mut ia = a.chars();
    let mut ib = b.chars();
    loop
        invariant
            ia.obeys_prophetic_iter_laws(),
            ib.obeys_prophetic_iter_laws(),
            ia.decrease() is Some,
            lex_lt(a@, b@) == lex_lt(ia.remaining(), ib.remaining()),
        decreases ia.decrease()->0,
    {
        let cb = ib.next();
        let ca = ia.next();
        match (ca, cb) {
            (_, None) => {
                return false;
            },
            (None, Some(_)) => {
                return true;
            },
            (Some(x), Some(y)) => {
                if x != y {
                    return x < y;
                }
            },
        }
    }
}

/// Whether `a` and `b` hold the same text.
pub fn str_eq(a: &str, b: &str) -> (r: bool)
    ensures
        r == (a@ == b@),
{
    let mut ia = a.chars();
    let mut ib = b.chars();
    loop
        invariant
            ia.obeys_prophetic_iter_laws(),
            ib.obeys_prophetic_iter_laws(),
            ia.decrease() is Some,
            (a@ == b@) == (ia.remaining() == ib.remaining()),
        decreases ia.decrease()->0,
    {
        let ghost ra = ia.remaining();
        let ghost rb = ib.remaining();
        let cb = ib.next();
        let ca = ia.next();
        match (ca, cb) {
            (None, None) => {
                assert(ra =~= rb);
                return true;
            },
            (Some(x), Some(y)) => {
                if x != y {
                    assert(ra[0] != rb[0]);
                    return false;
                }
                proof {
                    assert(ra =~= seq![x] + ra.drop_first());
                    assert(rb =~= seq![y] + rb.drop_first());
                }
            },
            _ => {
                assert(ra.len() != rb.len());
                return false;
            },
        }
    }
}

/// A sequence of texts in strictly ascending order: sorted, and free of
/// duplicates.
pub open spec fn ascending(s: Seq<Seq<char>>) -> bool {
    forall|i: int, j: int| 0 <= i < j < s.len() ==> lex_lt(#[trigger] s[i], #[trigger] s[j])
}

/// The texts of a set in ascending order.
pub open spec fn ordered(set: Set<Seq<char>>) -> Seq<Seq<char>> {
    choose|s: Seq<Seq<char>>| ascending(s) && s.to_set() == set
}

/// An ascending sequence holds no text twice.
pub proof fn lemma_ascending_no_duplicates(s: Seq<Seq<char>>)
    requires
        ascending(s),
    ensures
        s.no_duplicates(),
{
    assert forall|i: int, j: int| 0 <= i < s.len() && 0 <= j < s.len() && i != j implies s[i]
        != s[j] by {
        if i < j {
            lemma_lex_irreflexive(s[i]);
        } else {
            lemma_lex_irreflexive(s[j]);
        }
    }
}

/// Two ascending sequences that hold the same texts are the same sequence.
pub proof fn lemma_ascending_unique(s: Seq<Seq<char>>, t: Seq<Seq<char>>)
    requires
        ascending(s),
        ascending(t),
        s.to_set() == t.to_set(),
    ensures
        s == t,
    decreases s.len(),
{
    if s.len() == 0 {
        if t.len() > 0 {
            assert(t.to_set().contains(t[0]));
            assert(s.to_set().contains(t[0]));
        }
        assert(s =~= t);
    } else {
        assert(s.to_set().contains(s[0]));
        assert(t.to_set().contains(s[0]));
        let k = choose|k: int| 0 <= k < t.len() && t[k] == s[0];
        assert(t.to_set().contains(t[0]));
        assert(s.to_set().contains(t[0]));
        let m = choose|m: int| 0 <= m < s.len() && s[m] == t[0];
        if k > 0 {
            // t[0] < t[k] == s[0] <= s[m] == t[0]
            assert(lex_lt(t[0], t[k]));
            if m > 0 {
                assert(lex_lt(s[0], s[m]));
                lemma_lex_asymmetric(t[0], t[k]);
            } else {
                lemma_lex_irreflexive(t[0]);
            }
        }
        assert(s[0] == t[0]);
        let s1 = s.drop_first();
        let t1 = t.drop_first();
        assert forall|x: Seq<char>| s1.to_set().contains(x) <==> t1.to_set().contains(x) by {
            lemma_tail_members(s, x);
            lemma_tail_members(t, x);
        }
        assert(s1.to_set() =~= t1.to_set());
        lemma_ascending_unique(s1, t1);
        assert(s =~= seq![s[0]] + s1);
        assert(t =~= seq![t[0]] + t1);
    }
}

/// The tail of a non-empty ascending sequence holds what the sequence holds,
/// but for its first text.
proof fn lemma_tail_members(s: Seq<Seq<char>>, x: Seq<char>)
    requires
        ascending(s),
        s.len() > 0,
    ensures
        s.drop_first().to_set().contains(x) <==> (s.to_set().contains(x) && x != s[0]),
        ascending(s.drop_first()),
{
    let s1 = s.drop_first();
    assert forall|i: int, j: int| 0 <= i < j < s1.len() implies lex_lt(
        #[trigger] s1[i],
        #[trigger] s1[j],
    ) by {
        assert(s1[i] == s[i + 1] && s1[j] == s[j + 1]);
    }
    if s1.to_set().contains(x) {
        let i = choose|i: int| 0 <= i < s1.len() && s1[i] == x;
        assert(s[i + 1] == x);
        assert(lex_lt(s[0], s[i + 1]));
        lemma_lex_irreflexive(x);
    }
    if s.to_set().contains(x) && x != s[0] {
        let i = choose|i: int| 0 <= i < s.len() && s[i] == x;
        assert(s1[i - 1] == x);
    }
}

/// The character that stands for a decimal digit.
pub open spec fn digit_char(d: nat) -> char
    recommends
        d < 10,
{
    (48 + d) as u8 as char
}

/// The decimal digits of a natural number, most significant first, without
/// leading zeros.
pub open spec fn digits(n: nat) -> Seq<char>
    decreases n,
{
    if n < 10 {
        seq![digit_char(n)]
    } else {
        digits(n / 10).push(digit_char(n % 10))
    }
}

/// The decimal text of an integer: a minus sign for a negative one, then the
/// digits of its magnitude.
pub open spec fn decimal(v: int) -> Seq<char> {
    if v < 0 {
        seq!['-'] + digits((-v) as nat)
    } else {
        digits(v as nat)
    }
}

fn digit_str(d: u64) -> (s: &'static str)
    requires
        d < 10,
    ensures
        s@ == seq![digit_char(d as nat)],
{
    proof {
        reveal_strlit("0");
        reveal_strlit("1");
        reveal_strlit("2");
        reveal_strlit("3");
        reveal_strlit("4");
        reveal_strlit("5");
        reveal_strlit("6");
        reveal_strlit("7");
        reveal_strlit("8");
        reveal_strlit("9");
    }
    let s = match d {
        0 => "0",
        1 => "1",
        2 => "2",
        3 => "3",
        4 => "4",
        5 => "5",
        6 => "6",
        7 => "7",
        8 => "8",
        _ => "9",
    };
    assert(s@ =~= seq![digit_char(d as nat)]);
    s
}

fn digits_text(n: u64) -> (r: String)
    ensures
        r@ == digits(n as nat),
    decreases n,
{
    if n < 10 {
        String::from_str(digit_str(n))
    } else {
        let mut r = digits_text(n / 10);
        r.append(digit_str(n % 10));
        assert(r@ =~= digits(n as nat));
        r
    }
}

/// Renders a signed integer in decimal.
pub fn decimal_text(v: i64) -> (r: String)
    ensures
        r@ == decimal(v as int),
{
    if v < 0 {
        let magnitude: u64 = ((-(v + 1)) as u64) + 1;
        let mut r = String::from_str("-");
        proof {
            reveal_strlit("-");
        }
        let d = digits_text(magnitude);
        r.append(d.as_str());
        assert(r@ =~= decimal(v as int));
        r
    } else {
        digits_text(v as u64)
    }
}

/// A text without its first and its last character; a text of fewer than two
/// characters has nothing left.
pub open spec fn stripped(s: Seq<char>) -> Seq<char> {
    if s.len() >= 2 {
        s.subrange(1, s.len() - 1)
    } else {
        Seq::empty()
    }
}

/// Removes exactly one character from each end of `s`.
pub fn strip_ends(s: &str) -> (r: String)
    ensures
        r@ == stripped(s@),
{
    let n = s.unicode_len();
    if n >= 2 {
        String::from_str(s.substring_char(1, n - 1))
    } else {
        String::new()
    }
}

/// The texts that a sequence of strings holds.
pub open spec fn texts(s: Seq<String>) -> Seq<Seq<char>> {
    Seq::new(s.len(), |i: int| s[i]@)
}

/// A text put into an ascending sequence at its place leaves the sequence
/// ascending, and adds the text to what it holds.
pub proof fn lemma_insert_ascending(before: Seq<Seq<char>>, i: int, name: Seq<char>)
    requires
        ascending(before),
        0 <= i <= before.len(),
        forall|k: int| 0 <= k < i ==> lex_lt(#[trigger] before[k], name),
        i < before.len() ==> lex_lt(name, before[i]),
    ensures
        ascending(before.insert(i, name)),
        before.insert(i, name).to_set() == before.to_set().insert(name),
{
    let after = before.insert(i, name);
    assert forall|a: int, b: int| 0 <= a < b < after.len() implies lex_lt(
        #[trigger] after[a],
        #[trigger] after[b],
    ) by {
        if b < i {
            assert(after[a] == before[a] && after[b] == before[b]);
        } else if b == i {
            assert(after[a] == before[a]);
        } else if a < i {
            assert(after[a] == before[a] && after[b] == before[b - 1]);
        } else if a == i {
            assert(after[b] == before[b - 1]);
            if b - 1 > i {
                assert(lex_lt(before[i], before[b - 1]));
                lemma_lex_transitive(name, before[i], before[b - 1]);
            }
        } else {
            assert(after[a] == before[a - 1] && after[b] == before[b - 1]);
        }
    }
    assert forall|x: Seq<char>| after.to_set().contains(x) <==> before.to_set().insert(
        name,
    ).contains(x) by {
        if after.to_set().contains(x) {
            let k = choose|k: int| 0 <= k < after.len() && after[k] == x;
            if k < i {
                assert(before[k] == x);
            } else if k > i {
                assert(before[k - 1] == x);
            }
        }
        if before.to_set().contains(x) {
            let k = choose|k: int| 0 <= k < before.len() && before[k] == x;
            if k < i {
                assert(after[k] == x);
            } else {
                assert(after[k + 1] == x);
            }
        }
        if x == name {
            assert(after[i] == x);
        }
    }
    assert(after.to_set() =~= before.to_set().insert(name));
}

/// A text that an ascending sequence passes at index `i` is not in it: all
/// before `i` come before the text, and what stands at `i` comes after it.
pub proof fn lemma_absent(s: Seq<Seq<char>>, i: int, name: Seq<char>)
    requires
        ascending(s),
        0 <= i <= s.len(),
        forall|k: int| 0 <= k < i ==> lex_lt(#[trigger] s[k], name),
        i < s.len() ==> lex_lt(name, s[i]),
    ensures
        !s.to_set().contains(name),
{
    if s.to_set().contains(name) {
        let k = choose|k: int| 0 <= k < s.len() && s[k] == name;
        lemma_lex_irreflexive(name);
        if k > i {
            lemma_lex_transitive(name, s[i], s[k]);
        }
    }
}

/// Puts `name` into an ascending list of names, at its place; a name that is
/// there already is not added again.
pub fn insert_ordered(names: &mut Vec<String>, name: String)
    requires
        ascending(texts(old(names)@)),
    ensures
        ascending(texts(final(names)@)),
        texts(final(names)@).to_set() == texts(old(names)@).to_set().insert(name@),
{
    let mut i: usize = 0;
    while i < names.len() && str_lt(names[i].as_str(), name.as_str())
        invariant
            i <= names.len(),
            *names == *old(names),
            forall|k: int| 0 <= k < i ==> lex_lt(#[trigger] texts(names@)[k], name@),
        decreases names.len() - i,
    {
        i += 1;
    }
    let ghost before = texts(names@);
    if i < names.len() && str_eq(names[i].as_str(), name.as_str()) {
        assert(before[i as int] == name@);
        assert(before.to_set().contains(name@));
        assert(before.to_set().insert(name@) =~= before.to_set());
    } else {
        proof {
            if i < names.len() {
                lemma_lex_total(before[i as int], name@);
            }
            lemma_insert_ascending(before, i as int, name@);
        }
        names.insert(i, name);
        assert(texts(names@) =~= before.insert(i as int, name@));
    }
}

} // verus!

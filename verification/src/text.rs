use vstd::prelude::*;

use vstd::string::StrSliceExecFns;

verus! {

/// The characters of each string of a list.
pub open spec fn strs_view(v: Seq<String>) -> Seq<Seq<char>> {
    v.map_values(|s: String| s@)
}

/// Lexicographic order of character sequences by code point; this is the
/// order in which Rust compares `str` and `String` values.
pub open spec fn lex_lt(a: Seq<char>, b: Seq<char>) -> bool
    decreases a.len(),
{
    if b.len() == 0 {
        false
    } else if a.len() == 0 {
        true
    } else if a[0] != b[0] {
        (a[0] as int) < (b[0] as int)
    } else {
        lex_lt(a.drop_first(), b.drop_first())
    }
}

/// `a` comes before `b` or equals it.
pub open spec fn lex_le(a: Seq<char>, b: Seq<char>) -> bool {
    a == b || lex_lt(a, b)
}

/// Every element is at most each later one.
pub open spec fn sorted_strs(s: Seq<Seq<char>>) -> bool {
    forall|i: int, j: int| 0 <= i < j < s.len() ==> lex_le(#[trigger] s[i], #[trigger] s[j])
}

/// Every element is below each later one (sorted, and nothing twice).
pub open spec fn strictly_sorted_strs(s: Seq<Seq<char>>) -> bool {
    forall|i: int, j: int| 0 <= i < j < s.len() ==> lex_lt(#[trigger] s[i], #[trigger] s[j])
}

pub proof fn lemma_lex_lt_irreflexive(a: Seq<char>)
    ensures
        !lex_lt(a, a),
    decreases a.len(),
{
    if a.len() > 0 {
        lemma_lex_lt_irreflexive(a.drop_first());
    }
}

pub proof fn lemma_lex_lt_asymmetric(a: Seq<char>, b: Seq<char>)
    ensures
        !(lex_lt(a, b) && lex_lt(b, a)),
    decreases a.len(),
{
    if a.len() > 0 && b.len() > 0 && a[0] == b[0] {
        lemma_lex_lt_asymmetric(a.drop_first(), b.drop_first());
    }
}

pub proof fn lemma_lex_lt_transitive(a: Seq<char>, b: Seq<char>, c: Seq<char>)
    requires
        lex_lt(a, b),
        lex_lt(b, c),
    ensures
        lex_lt(a, c),
    decreases a.len(),
{
    if a.len() > 0 && b.len() > 0 && c.len() > 0 && a[0] == b[0] && b[0] == c[0] {
        lemma_lex_lt_transitive(a.drop_first(), b.drop_first(), c.drop_first());
    }
}

pub proof fn lemma_lex_lt_total(a: Seq<char>, b: Seq<char>)
    ensures
        a == b || lex_lt(a, b) || lex_lt(b, a),
    decreases a.len(),
{
    if a.len() > 0 && b.len() > 0 && a[0] == b[0] {
        lemma_lex_lt_total(a.drop_first(), b.drop_first());
        if a.drop_first() == b.drop_first() {
            assert(a =~= seq![a[0]] + a.drop_first());
            assert(b =~= seq![b[0]] + b.drop_first());
        }
    } else if a.len() == 0 && b.len() == 0 {
        assert(a =~= b);
    }
}

/// `lex_le(a, b)` holds exactly when `b` is not below `a`.
pub proof fn lemma_lex_le_iff_not_lt(a: Seq<char>, b: Seq<char>)
    ensures
        lex_le(a, b) <==> !lex_lt(b, a),
{
    lemma_lex_lt_total(a, b);
    lemma_lex_lt_asymmetric(a, b);
    lemma_lex_lt_irreflexive(a);
}

/// `str`'s `<`: code-point lexicographic order.
#[verifier::external_body]
pub(crate) fn str_lt(a: &str, b: &str) -> (r: bool)
    ensures
        r == lex_lt(a@, b@),
{
    a < b
}

/// `str`'s `==`: the same characters.
#[verifier::external_body]
pub(crate) fn str_eq(a: &str, b: &str) -> (r: bool)
    ensures
        r == (a@ == b@),
{
    a == b
}

/// `x` placed before the first element that is not below it.
pub open spec fn insert_sorted(s: Seq<Seq<char>>, x: Seq<char>) -> Seq<Seq<char>>
    decreases s.len(),
{
    if s.len() == 0 {
        seq![x]
    } else if lex_le(x, s[0]) {
        seq![x] + s
    } else {
        seq![s[0]] + insert_sorted(s.drop_first(), x)
    }
}

/// The elements of `s` in ascending order, duplicates kept (what `sort` gives).
pub open spec fn sort_strs(s: Seq<Seq<char>>) -> Seq<Seq<char>>
    decreases s.len(),
{
    if s.len() == 0 {
        seq![]
    } else {
        insert_sorted(sort_strs(s.drop_last()), s.last())
    }
}

proof fn lemma_insert_sorted_at(s: Seq<Seq<char>>, x: Seq<char>, j: int)
    requires
        0 <= j <= s.len(),
        forall|k: int| 0 <= k < j ==> !lex_le(x, #[trigger] s[k]),
        j < s.len() ==> lex_le(x, s[j]),
    ensures
        insert_sorted(s, x) == s.insert(j, x),
    decreases s.len(),
{
    if s.len() == 0 {
        assert(s.insert(j, x) =~= seq![x]);
    } else if j == 0 {
        assert(s.insert(j, x) =~= seq![x] + s);
    } else {
        let t = s.drop_first();
        assert forall|k: int| 0 <= k < j - 1 implies !lex_le(x, #[trigger] t[k]) by {
            assert(t[k] == s[k + 1]);
        }
        lemma_insert_sorted_at(t, x, j - 1);
        assert(s.insert(j, x) =~= seq![s[0]] + t.insert(j - 1, x));
    }
}

proof fn lemma_insert_sorted_keeps(s: Seq<Seq<char>>, x: Seq<char>)
    requires
        sorted_strs(s),
    ensures
        sorted_strs(insert_sorted(s, x)),
        insert_sorted(s, x).to_multiset() == s.to_multiset().insert(x),
    decreases s.len(),
{
    broadcast use vstd::seq_lib::group_to_multiset_ensures;

    if s.len() == 0 {
        assert(seq![x] =~= Seq::<Seq<char>>::empty().push(x));
    } else if lex_le(x, s[0]) {
        let r = seq![x] + s;
        assert forall|i: int, j: int| 0 <= i < j < r.len() implies lex_le(
            #[trigger] r[i],
            #[trigger] r[j],
        ) by {
            if i == 0 {
                if j > 1 {
                    assert(lex_le(s[0], s[j - 1]));
                    if x != s[0] && s[0] != s[j - 1] {
                        lemma_lex_lt_transitive(x, s[0], s[j - 1]);
                    }
                }
            } else {
                assert(lex_le(s[i - 1], s[j - 1]));
            }
        }
        lemma_multiset_prepend(x, s);
    } else {
        let t = s.drop_first();
        assert forall|i: int, j: int| 0 <= i < j < t.len() implies lex_le(
            #[trigger] t[i],
            #[trigger] t[j],
        ) by {
            assert(lex_le(s[i + 1], s[j + 1]));
        }
        lemma_insert_sorted_keeps(t, x);
        let u = insert_sorted(t, x);
        let r = seq![s[0]] + u;
        lemma_lex_le_iff_not_lt(x, s[0]);
        assert(lex_lt(s[0], x));
        assert forall|k: int| 0 <= k < u.len() implies lex_le(s[0], #[trigger] u[k]) by {
            assert(u.to_multiset().count(u[k]) > 0);
            assert(t.to_multiset().insert(x).count(u[k]) > 0);
            if u[k] != x {
                assert(t.to_multiset().count(u[k]) > 0);
                assert(t.contains(u[k]));
                let m = choose|m: int| 0 <= m < t.len() && t[m] == u[k];
                assert(lex_le(s[0], s[m + 1]));
            }
        }
        assert forall|i: int, j: int| 0 <= i < j < r.len() implies lex_le(
            #[trigger] r[i],
            #[trigger] r[j],
        ) by {
            if i == 0 {
                assert(lex_le(s[0], u[j - 1]));
            } else {
                assert(lex_le(u[i - 1], u[j - 1]));
            }
        }
        lemma_multiset_prepend(s[0], u);
        lemma_multiset_prepend(s[0], t);
        assert(s =~= seq![s[0]] + t);
    }
}

proof fn lemma_multiset_prepend(x: Seq<char>, s: Seq<Seq<char>>)
    ensures
        (seq![x] + s).to_multiset() == s.to_multiset().insert(x),
    decreases s.len(),
{
    broadcast use vstd::seq_lib::group_to_multiset_ensures;

    if s.len() == 0 {
        assert(seq![x] + s =~= Seq::<Seq<char>>::empty().push(x));
    } else {
        let t = s.drop_last();
        lemma_multiset_prepend(x, t);
        assert(seq![x] + s =~= (seq![x] + t).push(s.last()));
        assert(s =~= t.push(s.last()));
        assert((seq![x] + s).to_multiset() =~= s.to_multiset().insert(x));
    }
}

/// `sort_strs` gives a sorted rearrangement of its input.
pub proof fn lemma_sort_strs(s: Seq<Seq<char>>)
    ensures
        sorted_strs(sort_strs(s)),
        sort_strs(s).to_multiset() == s.to_multiset(),
    decreases s.len(),
{
    broadcast use vstd::seq_lib::group_to_multiset_ensures;

    if s.len() == 0 {
    } else {
        lemma_sort_strs(s.drop_last());
        lemma_insert_sorted_keeps(sort_strs(s.drop_last()), s.last());
        assert(s =~= s.drop_last().push(s.last()));
    }
}

/// Sorts a list of strings in ascending order, as `slice::sort` does.
pub fn sort_strings(items: &Vec<String>) -> (r: Vec<String>)
    ensures
        strs_view(r@) == sort_strs(strs_view(items@)),
{
    let mut out: Vec<String> = Vec::new();
    let n = items.len();
    for i in 0..n
        invariant
            n == items.len(),
            strs_view(out@) == sort_strs(strs_view(items@).take(i as int)),
    {
        let ghost before = strs_view(out@);
        let x = items[i].clone();
        let mut j: usize = 0;
        while j < out.len()
            invariant
                i < n,
                n == items.len(),
                j <= out.len(),
                strs_view(out@) == before,
                x@ == items@[i as int]@,
                forall|k: int| 0 <= k < j ==> !lex_le(x@, #[trigger] before[k]),
            ensures
                j <= out.len(),
                strs_view(out@) == before,
                forall|k: int| 0 <= k < j ==> !lex_le(x@, #[trigger] before[k]),
                j < out.len() ==> lex_le(x@, before[j as int]),
            decreases out.len() - j,
        {
            let later = str_lt(out[j].as_str(), x.as_str());
            proof {
                lemma_lex_le_iff_not_lt(x@, out@[j as int]@);
            }
            if !later {
                break;
            }
            j = j + 1;
        }
        proof {
            lemma_insert_sorted_at(before, x@, j as int);
        }
        out.insert(j, x);
        proof {
            let s = strs_view(items@).take(i + 1);
            assert(s.drop_last() =~= strs_view(items@).take(i as int));
            assert(strs_view(out@) =~= before.insert(j as int, items@[i as int]@));
        }
    }
    proof {
        assert(strs_view(items@).take(n as int) =~= strs_view(items@));
    }
    out
}

/// The parts one after another.
pub open spec fn concat_all(parts: Seq<Seq<char>>) -> Seq<char>
    decreases parts.len(),
{
    if parts.len() == 0 {
        Seq::empty()
    } else {
        concat_all(parts.drop_last()) + parts.last()
    }
}

pub proof fn lemma_concat_all_step(parts: Seq<Seq<char>>, i: int)
    requires
        0 <= i < parts.len(),
    ensures
        concat_all(parts.take(i + 1)) == concat_all(parts.take(i)) + parts[i],
{
    assert(parts.take(i + 1).drop_last() =~= parts.take(i));
}

/// The parts with `sep` between each two neighbours (what `join` gives).
pub open spec fn join_with(parts: Seq<Seq<char>>, sep: Seq<char>) -> Seq<char>
    decreases parts.len(),
{
    if parts.len() == 0 {
        Seq::empty()
    } else if parts.len() == 1 {
        parts[0]
    } else {
        join_with(parts.drop_last(), sep) + sep + parts.last()
    }
}

pub proof fn lemma_join_with_step(parts: Seq<Seq<char>>, sep: Seq<char>, i: int)
    requires
        0 <= i < parts.len(),
    ensures
        join_with(parts.take(i + 1), sep) == if i == 0 {
            parts[0]
        } else {
            join_with(parts.take(i), sep) + sep + parts[i]
        },
{
    assert(parts.take(i + 1).drop_last() =~= parts.take(i));
}

/// A hexadecimal digit as serde_json writes it, in lower case.
pub open spec fn hex_digit(d: int) -> char {
    if d < 10 {
        (('0' as int) + d) as char
    } else {
        (('a' as int) + d - 10) as char
    }
}

/// How serde_json writes one character inside a JSON string: a quote, a
/// backslash and the control characters below U+0020 are escaped (with the
/// short forms `\b`, `\t`, `\n`, `\f`, `\r` where JSON has them, else
/// `\u00` and two lower-case hex digits); every other character is written
/// as it is.
pub open spec fn json_escape_char(c: char) -> Seq<char> {
    let v = c as int;
    if c == '"' {
        seq!['\\', '"']
    } else if c == '\\' {
        seq!['\\', '\\']
    } else if v == 0x08 {
        seq!['\\', 'b']
    } else if v == 0x09 {
        seq!['\\', 't']
    } else if v == 0x0A {
        seq!['\\', 'n']
    } else if v == 0x0C {
        seq!['\\', 'f']
    } else if v == 0x0D {
        seq!['\\', 'r']
    } else if v < 0x20 {
        seq!['\\', 'u', '0', '0', hex_digit(v / 16), hex_digit(v % 16)]
    } else {
        seq![c]
    }
}

/// The characters of `s`, each escaped as inside a JSON string.
pub open spec fn json_escape(s: Seq<char>) -> Seq<char>
    decreases s.len(),
{
    if s.len() == 0 {
        Seq::empty()
    } else {
        json_escape(s.drop_last()) + json_escape_char(s.last())
    }
}

/// A JSON string literal holding `s`.
pub open spec fn json_quote(s: Seq<char>) -> Seq<char> {
    seq!['"'] + json_escape(s) + seq!['"']
}

/// What `serde_json::to_string` gives for a list of strings: a compact JSON
/// array, `[`, the quoted strings separated by commas, `]`.
pub open spec fn json_string_array(items: Seq<Seq<char>>) -> Seq<char> {
    seq!['['] + join_with(items.map_values(|s: Seq<char>| json_quote(s)), seq![',']) + seq![']']
}

/// `serde_json::to_string` on a list of strings: the compact array, with no
/// whitespace, each string escaped as `json_escape` says. Serialising
/// strings into memory cannot fail.
#[verifier::external_body]
pub(crate) fn to_json_string_array(items: &Vec<String>) -> (r: String)
    ensures
        r@ == json_string_array(strs_view(items@)),
{
    serde_json::to_string(items).expect("a list of strings always serializes")
}

/// The Unicode `White_Space` characters, which `char::is_whitespace` and
/// `str::trim` go by.
pub open spec fn is_white_space(c: char) -> bool {
    let v = c as int;
    ||| 0x9 <= v <= 0xD
    ||| v == 0x20
    ||| v == 0x85
    ||| v == 0xA0
    ||| v == 0x1680
    ||| 0x2000 <= v <= 0x200A
    ||| v == 0x2028
    ||| v == 0x2029
    ||| v == 0x202F
    ||| v == 0x205F
    ||| v == 0x3000
}

/// Without leading white space.
pub open spec fn trim_start_spec(s: Seq<char>) -> Seq<char>
    decreases s.len(),
{
    if s.len() > 0 && is_white_space(s[0]) {
        trim_start_spec(s.drop_first())
    } else {
        s
    }
}

/// Without trailing white space.
pub open spec fn trim_end_spec(s: Seq<char>) -> Seq<char>
    decreases s.len(),
{
    if s.len() > 0 && is_white_space(s.last()) {
        trim_end_spec(s.drop_last())
    } else {
        s
    }
}

/// Without leading or trailing white space.
pub open spec fn trim_spec(s: Seq<char>) -> Seq<char> {
    trim_end_spec(trim_start_spec(s))
}

/// Whether `c` is a `White_Space` character.
pub(crate) fn white_space(c: char) -> (r: bool)
    ensures
        r == is_white_space(c),
{
    let v = c as u32;
    (0x9 <= v && v <= 0xD) || v == 0x20 || v == 0x85 || v == 0xA0 || v == 0x1680 || (0x2000 <= v
        && v <= 0x200A) || v == 0x2028 || v == 0x2029 || v == 0x202F || v == 0x205F || v == 0x3000
}

proof fn lemma_trim_start_skips(s: Seq<char>, i: int)
    requires
        0 <= i <= s.len(),
        forall|k: int| 0 <= k < i ==> is_white_space(#[trigger] s[k]),
    ensures
        trim_start_spec(s) == trim_start_spec(s.subrange(i, s.len() as int)),
    decreases i,
{
    if i > 0 {
        assert(s.drop_first().subrange(i - 1, s.drop_first().len() as int) =~= s.subrange(
            i,
            s.len() as int,
        ));
        lemma_trim_start_skips(s.drop_first(), i - 1);
    } else {
        assert(s.subrange(0, s.len() as int) =~= s);
    }
}

proof fn lemma_trim_end_skips(s: Seq<char>, j: int)
    requires
        0 <= j <= s.len(),
        forall|k: int| j <= k < s.len() ==> is_white_space(#[trigger] s[k]),
    ensures
        trim_end_spec(s) == trim_end_spec(s.subrange(0, j)),
    decreases s.len() - j,
{
    if j < s.len() {
        assert(s.drop_last().subrange(0, j) =~= s.subrange(0, j));
        lemma_trim_end_skips(s.drop_last(), j);
    } else {
        assert(s.subrange(0, j) =~= s);
    }
}

/// The string without leading and trailing `White_Space`, as `str::trim`
/// gives it.
pub(crate) fn trim_whitespace(s: &str) -> (r: &str)
    ensures
        r@ == trim_spec(s@),
{
    let n = s.unicode_len();
    let mut start: usize = 0;
    while start < n && white_space(s.get_char(start))
        invariant
            start <= n,
            n == s@.len(),
            forall|k: int| 0 <= k < start ==> is_white_space(#[trigger] s@[k]),
        decreases n - start,
    {
        start = start + 1;
    }
    let ghost rest = s@.subrange(start as int, n as int);
    proof {
        lemma_trim_start_skips(s@, start as int);
        assert(start < n ==> !is_white_space(rest[0]));
        assert(trim_start_spec(rest) == rest);
    }
    let mut end: usize = n;
    while end > start && white_space(s.get_char(end - 1))
        invariant
            start <= end <= n,
            n == s@.len(),
            rest == s@.subrange(start as int, n as int),
            forall|k: int| end <= k < n ==> is_white_space(#[trigger] s@[k]),
        decreases end - start,
    {
        end = end - 1;
    }
    proof {
        assert forall|k: int| end - start <= k < rest.len() implies is_white_space(
            #[trigger] rest[k],
        ) by {
            assert(rest[k] == s@[start + k]);
        }
        lemma_trim_end_skips(rest, end - start);
        let kept = rest.subrange(0, end - start);
        assert(kept =~= s@.subrange(start as int, end as int));
        assert(end > start ==> !is_white_space(kept.last()));
        assert(trim_end_spec(kept) == kept);
    }
    s.substring_char(start, end)
}

/// Adds `x` to a strictly sorted list of strings unless it is there already,
/// keeping the list strictly sorted (an ordered set's `insert`).
pub fn insert_unique_sorted(v: &mut Vec<String>, x: String)
    requires
        strictly_sorted_strs(strs_view(old(v)@)),
    ensures
        strictly_sorted_strs(strs_view(final(v)@)),
        strs_view(final(v)@).to_set() == strs_view(old(v)@).to_set().insert(x@),
{
    let ghost s = strs_view(v@);
    let mut j: usize = 0;
    while j < v.len()
        invariant
            j <= v.len(),
            strs_view(v@) == s,
            forall|k: int| 0 <= k < j ==> lex_lt(#[trigger] s[k], x@),
        ensures
            j <= v.len(),
            strs_view(v@) == s,
            forall|k: int| 0 <= k < j ==> lex_lt(#[trigger] s[k], x@),
            j < v.len() ==> !lex_lt(s[j as int], x@),
        decreases v.len() - j,
    {
        if !str_lt(v[j].as_str(), x.as_str()) {
            break;
        }
        j = j + 1;
    }
    if j < v.len() && str_eq(v[j].as_str(), x.as_str()) {
        proof {
            assert(s.to_set().insert(x@) =~= s.to_set()) by {
                assert(s[j as int] == x@);
            }
        }
        return;
    }
    proof {
        if j < v.len() {
            lemma_lex_lt_total(s[j as int], x@);
        }
    }
    let ghost xv = x@;
    v.insert(j, x);
    proof {
        let t = strs_view(v@);
        assert(t =~= s.insert(j as int, xv));
        assert forall|a: int, b: int| 0 <= a < b < t.len() implies lex_lt(
            #[trigger] t[a],
            #[trigger] t[b],
        ) by {
            if b < j {
                assert(t[a] == s[a] && t[b] == s[b]);
            } else if b == j {
                assert(t[a] == s[a]);
            } else if a == j {
                assert(t[b] == s[b - 1]);
                if b - 1 > j {
                    lemma_lex_lt_transitive(xv, s[j as int], s[b - 1]);
                }
            } else if a < j {
                assert(t[a] == s[a] && t[b] == s[b - 1]);
                if b - 1 >= j {
                    lemma_lex_lt_transitive(s[a], xv, s[j as int]);
                    if b - 1 > j {
                        lemma_lex_lt_transitive(s[a], s[j as int], s[b - 1]);
                    }
                }
            } else {
                assert(t[a] == s[a - 1] && t[b] == s[b - 1]);
            }
        }
        assert forall|y: Seq<char>| t.to_set().contains(y) <==> s.to_set().insert(xv).contains(y) by {
            if t.to_set().contains(y) {
                let k = choose|k: int| 0 <= k < t.len() && t[k] == y;
                if k < j {
                    assert(s[k] == y);
                } else if k > j {
                    assert(s[k - 1] == y);
                }
            }
            if s.to_set().contains(y) && y != xv {
                let k = choose|k: int| 0 <= k < s.len() && s[k] == y;
                if k < j {
                    assert(t[k] == y);
                } else {
                    assert(t[k + 1] == y);
                }
            }
            if y == xv {
                assert(t[j as int] == y);
            }
        }
        assert(t.to_set() =~= s.to_set().insert(xv));
    }
}

/// Lexicographic order of paths given as their components, each component
/// compared as a string; this is the order of Rust's `Path` comparison on
/// relative paths made of plain components.
pub open spec fn dirs_lt(a: Seq<Seq<char>>, b: Seq<Seq<char>>) -> bool
    decreases a.len(),
{
    if b.len() == 0 {
        false
    } else if a.len() == 0 {
        true
    } else if a[0] != b[0] {
        lex_lt(a[0], b[0])
    } else {
        dirs_lt(a.drop_first(), b.drop_first())
    }
}

pub proof fn lemma_dirs_lt_irreflexive(a: Seq<Seq<char>>)
    ensures
        !dirs_lt(a, a),
    decreases a.len(),
{
    if a.len() > 0 {
        lemma_dirs_lt_irreflexive(a.drop_first());
    }
}

pub proof fn lemma_dirs_lt_transitive(a: Seq<Seq<char>>, b: Seq<Seq<char>>, c: Seq<Seq<char>>)
    requires
        dirs_lt(a, b),
        dirs_lt(b, c),
    ensures
        dirs_lt(a, c),
    decreases a.len(),
{
    if a.len() > 0 && b.len() > 0 && c.len() > 0 {
        if a[0] == b[0] && b[0] == c[0] {
            lemma_dirs_lt_transitive(a.drop_first(), b.drop_first(), c.drop_first());
        } else if a[0] != b[0] && b[0] != c[0] {
            lemma_lex_lt_transitive(a[0], b[0], c[0]);
            if a[0] == c[0] {
                lemma_lex_lt_asymmetric(a[0], b[0]);
            }
        }
    }
}

pub proof fn lemma_dirs_lt_total(a: Seq<Seq<char>>, b: Seq<Seq<char>>)
    ensures
        a == b || dirs_lt(a, b) || dirs_lt(b, a),
    decreases a.len(),
{
    if a.len() > 0 && b.len() > 0 {
        if a[0] == b[0] {
            lemma_dirs_lt_total(a.drop_first(), b.drop_first());
            if a.drop_first() == b.drop_first() {
                assert(a =~= seq![a[0]] + a.drop_first());
                assert(b =~= seq![b[0]] + b.drop_first());
            }
        } else {
            lemma_lex_lt_total(a[0], b[0]);
        }
    } else if a.len() == 0 && b.len() == 0 {
        assert(a =~= b);
    }
}

/// Compares two paths given as components, in `Path` order.
pub fn dirs_less(a: &Vec<String>, b: &Vec<String>) -> (r: bool)
    ensures
        r == dirs_lt(strs_view(a@), strs_view(b@)),
{
    let ghost x = strs_view(a@);
    let ghost y = strs_view(b@);
    let mut k: usize = 0;
    proof {
        assert(x.skip(0) =~= x);
        assert(y.skip(0) =~= y);
    }
    loop
        invariant
            k <= a.len(),
            k <= b.len(),
            x == strs_view(a@),
            y == strs_view(b@),
            dirs_lt(x, y) == dirs_lt(x.skip(k as int), y.skip(k as int)),
        decreases a.len() - k,
    {
        if k == b.len() {
            return false;
        }
        if k == a.len() {
            return true;
        }
        let same = str_eq(a[k].as_str(), b[k].as_str());
        proof {
            assert(x.skip(k as int)[0] == x[k as int]);
            assert(y.skip(k as int)[0] == y[k as int]);
            assert(x.skip(k as int).drop_first() =~= x.skip(k + 1));
            assert(y.skip(k as int).drop_first() =~= y.skip(k + 1));
        }
        if !same {
            return str_lt(a[k].as_str(), b[k].as_str());
        }
        k = k + 1;
    }
}

} // verus!

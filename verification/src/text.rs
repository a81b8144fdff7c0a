//! The order of names and the joining of text parts.

use vstd::prelude::*;
use vstd::std_specs::iter::IteratorSpec;
use vstd::string::*;

verus! {

/// How one name stands to another in the order of names.
#[derive(Clone, Copy, Debug, PartialEq, Eq, Structural)]
pub enum Placement {
    Before,
    Same,
    After,
}

/// The order of names from position `from` on: the first position at which the names
/// differ decides, by the code points of the characters there, and a name that ends
/// first comes first.
pub open spec fn name_less_from(a: Seq<char>, b: Seq<char>, from: int) -> bool
    decreases b.len() - from,
{
    if from < 0 || from >= b.len() {
        false
    } else if from >= a.len() {
        true
    } else if a[from] != b[from] {
        (a[from] as u32) < (b[from] as u32)
    } else {
        name_less_from(a, b, from + 1)
    }
}

/// The order of names: lexicographic by code point, which is the order that strings
/// have by their bytes.
pub open spec fn name_less(a: Seq<char>, b: Seq<char>) -> bool {
    name_less_from(a, b, 0)
}

/// Different characters have different code points.
pub proof fn lemma_code_points_differ(c: char, d: char)
    requires
        c != d,
    ensures
        (c as u32) != (d as u32),
{
    vstd::utf8::char_u32_cast(c, c as u32);
    vstd::utf8::char_u32_cast(d, d as u32);
}

/// No name comes before itself, from whatever position on.
pub proof fn lemma_name_less_from_irreflexive(a: Seq<char>, from: int)
    ensures
        !name_less_from(a, a, from),
    decreases a.len() - from,
{
    if 0 <= from < a.len() {
        lemma_name_less_from_irreflexive(a, from + 1);
    }
}

/// Two names that agree up to `from` are ordered one way, the other way, or equal.
pub proof fn lemma_name_less_from_total(a: Seq<char>, b: Seq<char>, from: int)
    requires
        0 <= from <= a.len(),
        from <= b.len(),
        a.subrange(0, from) == b.subrange(0, from),
    ensures
        name_less_from(a, b, from) || name_less_from(b, a, from) || a == b,
        !(name_less_from(a, b, from) && name_less_from(b, a, from)),
    decreases b.len() - from,
{
    if from >= b.len() {
        if from >= a.len() {
            assert(a =~= a.subrange(0, from));
            assert(b =~= b.subrange(0, from));
        }
    } else if from >= a.len() {
    } else if a[from] != b[from] {
        lemma_code_points_differ(a[from], b[from]);
    } else {
        assert(a.subrange(0, from + 1) =~= a.subrange(0, from).push(a[from]));
        assert(b.subrange(0, from + 1) =~= b.subrange(0, from).push(b[from]));
        lemma_name_less_from_total(a, b, from + 1);
    }
}

/// The order from `from` on is transitive.
pub proof fn lemma_name_less_from_transitive(a: Seq<char>, b: Seq<char>, c: Seq<char>, from: int)
    requires
        name_less_from(a, b, from),
        name_less_from(b, c, from),
    ensures
        name_less_from(a, c, from),
    decreases c.len() - from,
{
    if from < 0 || from >= c.len() {
    } else if from >= a.len() {
    } else if a[from] != b[from] || b[from] != c[from] {
        if a[from] == c[from] {
            lemma_code_points_differ(a[from], b[from]);
        }
    } else {
        lemma_name_less_from_transitive(a, b, c, from + 1);
    }
}

/// No name comes before itself.
pub proof fn lemma_name_less_irreflexive(a: Seq<char>)
    ensures
        !name_less(a, a),
{
    lemma_name_less_from_irreflexive(a, 0);
}

/// The order of names is transitive.
pub proof fn lemma_name_less_transitive(a: Seq<char>, b: Seq<char>, c: Seq<char>)
    requires
        name_less(a, b),
        name_less(b, c),
    ensures
        name_less(a, c),
{
    lemma_name_less_from_transitive(a, b, c, 0);
}

/// Of two names exactly one holds: the first comes before the second, they are equal, or
/// the second comes before the first.
pub proof fn lemma_name_less_total(a: Seq<char>, b: Seq<char>)
    ensures
        name_less(a, b) || name_less(b, a) || a == b,
        !(name_less(a, b) && name_less(b, a)),
        a == b ==> !name_less(a, b) && !name_less(b, a),
{
    assert(a.subrange(0, 0) =~= b.subrange(0, 0));
    lemma_name_less_from_total(a, b, 0);
    lemma_name_less_irreflexive(a);
}

/// Places `a` against `b` in the order of names.
pub fn place_name(a: &str, b: &str) -> (r: Placement)
    ensures
        (r == Placement::Before) == name_less(a@, b@),
        (r == Placement::Same) == (a@ == b@),
        (r == Placement::After) == name_less(b@, a@),
{
    let mut rest_a = a.chars();
    let mut rest_b = b.chars();
    let ghost mut at: int = 0;
    proof {
        lemma_name_less_total(a@, b@);
        assert(a@.skip(0) =~= a@);
        assert(b@.skip(0) =~= b@);
    }
    loop
        invariant
            0 <= at <= a@.len(),
            at <= b@.len(),
            rest_a.remaining() == a@.skip(at),
            rest_b.remaining() == b@.skip(at),
            name_less_from(a@, b@, at) == name_less(a@, b@),
            name_less_from(b@, a@, at) == name_less(b@, a@),
            name_less(a@, b@) || name_less(b@, a@) || a@ == b@,
            !(name_less(a@, b@) && name_less(b@, a@)),
            a@ == b@ ==> !name_less(a@, b@),
        decreases a@.len() - at,
    {
        let next_a = rest_a.next();
        let next_b = rest_b.next();
        match (next_a, next_b) {
            (None, None) => {
                return Placement::Same;
            },
            (None, Some(_)) => {
                return Placement::Before;
            },
            (Some(_), None) => {
                return Placement::After;
            },
            (Some(c), Some(d)) => {
                if c != d {
                    proof {
                        lemma_code_points_differ(c, d);
                    }
                    if (c as u32) < (d as u32) {
                        return Placement::Before;
                    } else {
                        return Placement::After;
                    }
                }
                proof {
                    assert(a@.skip(at).drop_first() =~= a@.skip(at + 1));
                    assert(b@.skip(at).drop_first() =~= b@.skip(at + 1));
                    at = at + 1;
                }
            },
        }
    }
}

/// Whether two names are the same.
pub fn same_name(a: &str, b: &str) -> (r: bool)
    ensures
        r == (a@ == b@),
{
    place_name(a, b) == Placement::Same
}

/// The texts of a sequence of strings.
pub open spec fn texts(strings: Seq<String>) -> Seq<Seq<char>> {
    strings.map_values(|s: String| s@)
}

/// The parts in order, with the separator between each two neighbours.
pub open spec fn join(parts: Seq<Seq<char>>, separator: Seq<char>) -> Seq<char>
    decreases parts.len(),
{
    if parts.len() == 0 {
        Seq::empty()
    } else if parts.len() == 1 {
        parts[0]
    } else {
        join(parts.drop_last(), separator) + separator + parts.last()
    }
}

/// Joining one part more appends the separator, unless nothing came before, and the part.
pub proof fn lemma_join_push(parts: Seq<Seq<char>>, separator: Seq<char>, part: Seq<char>)
    ensures
        join(parts.push(part), separator) == if parts.len() == 0 {
            part
        } else {
            join(parts, separator) + separator + part
        },
{
    assert(parts.push(part).drop_last() =~= parts);
}

/// Joins strings with a separator.
pub fn join_strings(parts: &Vec<String>, separator: &str) -> (r: String)
    ensures
        r@ == join(texts(parts@), separator@),
{
    let mut out = String::new();
    let mut i: usize = 0;
    while i < parts.len()
        invariant
            i <= parts@.len(),
            out@ == join(texts(parts@).take(i as int), separator@),
        decreases parts@.len() - i,
    {
        proof {
            lemma_join_push(texts(parts@).take(i as int), separator@, parts@[i as int]@);
            assert(texts(parts@).take(i + 1) =~= texts(parts@).take(i as int).push(
                parts@[i as int]@,
            ));
        }
        if i > 0 {
            out.append(separator);
        }
        out.append(parts[i].as_str());
        i += 1;
    }
    proof {
        assert(texts(parts@).take(parts@.len() as int) =~= texts(parts@));
    }
    out
}

} // verus!

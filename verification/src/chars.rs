//! Text utilities for filenames: building strings character by
//! character, decoding UTF-16 with replacement, and ASCII
//! case-insensitive comparison.

use vstd::prelude::*;

verus! {

use vstd::string::next_postcondition;
use vstd::std_specs::iter::IteratorSpec;

/// Relies on `char::from_u32`: it returns the character with scalar
/// value `v` exactly when `v` is a Unicode scalar value, that is, not a
/// surrogate and at most `0x10FFFF`.
pub assume_specification[ char::from_u32 ](v: u32) -> (r: Option<char>)
    ensures
        (v < 0xD800 || (0xE000 <= v && v <= 0x10FFFF)) <==> (r is Some),
        r matches Some(c) ==> c as u32 == v,
;

/// Relies on `String::push`: it appends exactly the one character.
#[verifier::external_body]
pub fn push_char(s: &mut String, c: char)
    ensures
        final(s)@ == old(s)@.push(c),
{
    s.push(c);
}

/// The characters of `s` as a vector.
pub fn str_to_chars(s: &str) -> (r: Vec<char>)
    ensures
        r@ == s@,
{
    broadcast use next_postcondition;

    let mut it = s.chars();
    let mut r: Vec<char> = Vec::new();
    loop
        invariant
            it.obeys_prophetic_iter_laws(),
            it.decrease() is Some,
            r@ + it.remaining() == s@,
        ensures
            r@ == s@,
        decreases it.decrease()->0,
    {
        match it.next() {
            Some(c) => {
                r.push(c);
                proof {
                    assert(r@ + it.remaining() =~= s@);
                }
            },
            None => {
                proof {
                    assert(r@ =~= s@);
                }
                break;
            },
        }
    }
    r
}

/// A string holding exactly the characters of `v`.
pub fn chars_to_string(v: &Vec<char>) -> (r: String)
    ensures
        r@ == v@,
{
    let mut r = String::new();
    let mut i: usize = 0;
    while i < v.len()
        invariant
            i <= v@.len(),
            r@ == v@.take(i as int),
        decreases v@.len() - i,
    {
        let c = v[i];
        push_char(&mut r, c);
        proof {
            assert(r@ =~= v@.take(i + 1));
        }
        i = i + 1;
    }
    proof {
        assert(v@.take(v@.len() as int) =~= v@);
    }
    r
}

/// The value a scalar folds to under ASCII lowercasing.
pub open spec fn fold_point(v: int) -> int {
    if 0x41 <= v <= 0x5A {
        v + 0x20
    } else {
        v
    }
}

/// The scalar value a character folds to under ASCII lowercasing.
pub open spec fn fold_char(c: char) -> int {
    fold_point(c as u32 as int)
}

/// Whether two character sequences agree up to ASCII case.
pub open spec fn spec_eq_ignore_ascii(a: Seq<char>, b: Seq<char>) -> bool {
    &&& a.len() == b.len()
    &&& forall|i: int| 0 <= i < a.len()
        ==> fold_char(#[trigger] a[i]) == fold_char(b[i])
}

/// Compares two strings, treating ASCII letters case-insensitively.
pub fn eq_ignore_ascii_case(a: &str, b: &str) -> (r: bool)
    ensures
        r == spec_eq_ignore_ascii(a@, b@),
{
    let av = str_to_chars(a);
    let bv = str_to_chars(b);
    if av.len() != bv.len() {
        return false;
    }
    let n = av.len();
    let mut i: usize = 0;
    while i < n
        invariant
            i <= n,
            n == av@.len(),
            n == bv@.len(),
            av@ == a@,
            bv@ == b@,
            forall|j: int| 0 <= j < i
                ==> fold_char(#[trigger] a@[j]) == fold_char(b@[j]),
        decreases n - i,
    {
        let ca = av[i] as u32;
        let cb = bv[i] as u32;
        let fa = if 0x41 <= ca && ca <= 0x5A { ca + 0x20 } else { ca };
        let fb = if 0x41 <= cb && cb <= 0x5A { cb + 0x20 } else { cb };
        if fa != fb {
            return false;
        }
        proof {
            assert(fold_char(a@[i as int]) == fold_char(b@[i as int]));
        }
        i = i + 1;
    }
    true
}

/// The scalar values that UTF-16 text decodes to, with each unpaired
/// surrogate replaced by `0xFFFD`.
pub open spec fn spec_utf16_points(units: Seq<u16>) -> Seq<u32>
    decreases units.len(),
{
    if units.len() == 0 {
        Seq::empty()
    } else {
        let u = units[0] as int;
        if u < 0xD800 || u >= 0xE000 {
            seq![units[0] as u32] + spec_utf16_points(units.skip(1))
        } else if u < 0xDC00 {
            if units.len() >= 2 && 0xDC00 <= units[1] && units[1] < 0xE000 {
                let p = 0x10000 + (u - 0xD800) * 0x400 + (units[1] - 0xDC00);
                seq![p as u32] + spec_utf16_points(units.skip(2))
            } else {
                seq![0xFFFDu32] + spec_utf16_points(units.skip(1))
            }
        } else {
            seq![0xFFFDu32] + spec_utf16_points(units.skip(1))
        }
    }
}

/// Decodes UTF-16 text, replacing ill-formed surrogates with `U+FFFD`.
pub fn utf16_to_chars(units: &Vec<u16>) -> (r: Vec<char>)
    ensures
        r@.map_values(|c: char| c as u32) == spec_utf16_points(units@),
{
    let n = units.len();
    let mut r: Vec<char> = Vec::new();
    let mut i: usize = 0;
    proof {
        assert(units@.skip(0) =~= units@);
        assert(r@.map_values(|c: char| c as u32) =~= Seq::<u32>::empty());
    }
    while i < n
        invariant
            i <= n,
            n == units@.len(),
            r@.map_values(|c: char| c as u32) + spec_utf16_points(units@.skip(i as int))
                == spec_utf16_points(units@),
        decreases n - i,
    {
        let ghost pre = r@;
        let u = units[i];
        let mut step: usize = 1;
        let point: u32;
        if u < 0xD800 || u >= 0xE000 {
            point = u as u32;
        } else if u < 0xDC00 && i + 1 < n && 0xDC00 <= units[i + 1] && units[i + 1] < 0xE000
        {
            point = 0x10000 + (u as u32 - 0xD800) * 0x400 + (units[i + 1] as u32 - 0xDC00);
            step = 2;
        } else {
            point = 0xFFFD;
        }
        let c = match char::from_u32(point) {
            Some(c) => c,
            None => {
                proof {
                    assert(false);
                }
                return r;
            },
        };
        r.push(c);
        proof {
            let rest = units@.skip(i as int);
            assert(rest.len() == n - i);
            assert(rest[0] == units@[i as int]);
            if step == 2 {
                assert(rest[1] == units@[i + 1]);
                assert(rest.skip(2) =~= units@.skip(i + 2));
                assert(spec_utf16_points(rest)
                    == seq![point] + spec_utf16_points(units@.skip(i + 2)));
            } else {
                assert(rest.skip(1) =~= units@.skip(i + 1));
                assert(spec_utf16_points(rest)
                    == seq![point] + spec_utf16_points(units@.skip(i as int + 1)));
            }
            assert(r@.map_values(|c2: char| c2 as u32)
                =~= pre.map_values(|c2: char| c2 as u32) + seq![point]);
            assert(pre.map_values(|c2: char| c2 as u32) + seq![point]
                + spec_utf16_points(units@.skip(i + step))
                =~= pre.map_values(|c2: char| c2 as u32)
                    + (seq![point] + spec_utf16_points(units@.skip(i + step))));
        }
        i = i + step;
    }
    proof {
        assert(units@.skip(n as int) =~= Seq::empty());
        assert(r@.map_values(|c: char| c as u32) =~= spec_utf16_points(units@));
    }
    r
}

} // verus!

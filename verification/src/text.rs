//! Unicode-safe text utilities.
//!
//! Every offset in this module is a character (code point) count, never a
//! byte count: the engine works on mixed-script text where the two differ.

use vstd::prelude::*;
use vstd::string::StrSliceExecFns;
use vstd::string::StringExecFns;

verus! {

/// Failure of a slicing request: the span reaches past the character
/// count of the text.
#[derive(Clone, Copy, PartialEq, Eq, Structural, Debug)]
pub enum SliceError {
    OutOfRange,
}

/// The characters of `s`, one element per code point.
pub fn str_chars(s: &str) -> (r: Vec<char>)
    ensures
        r@ == s@,
{
    let n: usize = s.unicode_len();
    let mut r: Vec<char> = Vec::new();
    let mut i: usize = 0;
    while i < n
        invariant
            n == s@.len(),
            i <= n,
            r@ == s@.take(i as int),
        decreases n - i,
    {
        let c = s.get_char(i);
        r.push(c);
        i = i + 1;
        proof {
            assert(s@.take(i as int) =~= s@.take(i - 1).push(s@[i - 1]));
        }
    }
    proof {
        assert(s@.take(n as int) =~= s@);
    }
    r
}

/// Relies on `String::push`: appends the given character to the end of
/// the string.
#[verifier::external_body]
fn push_char(s: &mut String, c: char)
    ensures
        final(s)@ == old(s)@.push(c),
{
    s.push(c)
}

/// A string holding exactly the characters of `v`, in order.
pub fn chars_to_string(v: &[char]) -> (r: String)
    ensures
        r@ == v@,
{
    let mut r: String = String::new();
    let n: usize = v.len();
    let mut i: usize = 0;
    while i < n
        invariant
            n == v@.len(),
            i <= n,
            r@ == v@.take(i as int),
        decreases n - i,
    {
        push_char(&mut r, v[i]);
        i = i + 1;
        proof {
            assert(v@.take(i as int) =~= v@.take(i - 1).push(v@[i - 1]));
        }
    }
    proof {
        assert(v@.take(n as int) =~= v@);
    }
    r
}

/// Whether two character slices hold the same characters.
pub fn chars_eq(a: &[char], b: &[char]) -> (r: bool)
    ensures
        r == (a@ == b@),
{
    if a.len() != b.len() {
        return false;
    }
    let n: usize = a.len();
    let mut i: usize = 0;
    while i < n
        invariant
            n == a@.len(),
            n == b@.len(),
            i <= n,
            forall|j: int| 0 <= j < i ==> a@[j] == b@[j],
        decreases n - i,
    {
        if a[i] != b[i] {
            return false;
        }
        i = i + 1;
    }
    proof {
        assert(a@ =~= b@);
    }
    true
}

/// A fresh vector holding the characters of `v`.
pub fn copy_chars(v: &[char]) -> (r: Vec<char>)
    ensures
        r@ == v@,
{
    let n: usize = v.len();
    let mut r: Vec<char> = Vec::new();
    let mut i: usize = 0;
    while i < n
        invariant
            n == v@.len(),
            i <= n,
            r@ == v@.take(i as int),
        decreases n - i,
    {
        r.push(v[i]);
        i = i + 1;
        proof {
            assert(v@.take(i as int) =~= v@.take(i - 1).push(v@[i - 1]));
        }
    }
    proof {
        assert(v@.take(n as int) =~= v@);
    }
    r
}

/// The `len` characters of `s` starting at character index `start`, or
/// `OutOfRange` when the span reaches past the character count.
pub fn substring_len(s: &str, start: usize, len: usize) -> (r: Result<String, SliceError>)
    ensures
        match r {
            Ok(t) => start + len <= s@.len() && t@ == s@.subrange(
                start as int,
                start + len,
            ),
            Err(e) => e == SliceError::OutOfRange && start + len > s@.len(),
        },
{
    let n: usize = s.unicode_len();
    if start > n || len > n - start {
        Err(SliceError::OutOfRange)
    } else {
        let t = s.substring_char(start, start + len);
        Ok(String::from_str(t))
    }
}

/// The characters of `s` in the index range `[start, end)`, or
/// `OutOfRange` when the range is reversed or reaches past the
/// character count.
pub fn substring(s: &str, start: usize, end: usize) -> (r: Result<String, SliceError>)
    ensures
        match r {
            Ok(t) => start <= end && end <= s@.len() && t@ == s@.subrange(
                start as int,
                end as int,
            ),
            Err(e) => e == SliceError::OutOfRange && (end < start || end > s@.len()),
        },
{
    if end < start {
        Err(SliceError::OutOfRange)
    } else {
        substring_len(s, start, end - start)
    }
}

} // verus!

//! Paths of nodes and properties, as text and as bytes.

use crate::text::{
    lemma_encode_char, lemma_encode_concat, lemma_encode_one, lemma_encode_contains,
};
use vstd::prelude::*;
use vstd::utf8::{encode_scalar, encode_utf8};

verus! {

/// The byte that separates the parts of a path.
pub const SEPARATOR: u8 = 0x2f;

/// The place of the first separator in `path`, or its length if there is none.
pub open spec fn first_separator(path: Seq<char>) -> int
    decreases path.len(),
{
    if path.len() == 0 || path[0] == '/' {
        0
    } else {
        1 + first_separator(path.drop_first())
    }
}

/// The parts of `path` between its separators, in order. Parts can be empty, and there is always
/// at least one.
pub open spec fn split(path: Seq<char>) -> Seq<Seq<char>>
    decreases path.len(),
{
    let end = first_separator(path);
    if 0 <= end < path.len() {
        seq![path.take(end)] + split(path.skip(end + 1))
    } else {
        seq![path]
    }
}

/// `path` without the separator it may end with.
pub open spec fn trim(path: Seq<char>) -> Seq<char> {
    if path.len() > 0 && path.last() == '/' {
        path.drop_last()
    } else {
        path
    }
}

/// Where the first separator is, and that there is none before it.
pub proof fn lemma_first_separator(path: Seq<char>)
    ensures
        0 <= first_separator(path) <= path.len(),
        first_separator(path) < path.len() ==> path[first_separator(path)] == '/',
        forall|i: int| 0 <= i < first_separator(path) ==> path[i] != '/',
    decreases path.len(),
{
    if path.len() > 0 && path[0] != '/' {
        let rest = path.drop_first();
        lemma_first_separator(rest);
        assert forall|i: int| 0 <= i < first_separator(path) implies path[i] != '/' by {
            if i > 0 {
                assert(path[i] == rest[i - 1]);
            }
        }
    }
}

/// Splitting a path at its first separator splits its encoding at the first separator byte.
pub proof fn lemma_encode_split(path: Seq<char>)
    ensures
        ({
            let end = first_separator(path);
            if end < path.len() {
                &&& encode_utf8(path) == encode_utf8(path.take(end)) + seq![SEPARATOR]
                    + encode_utf8(path.skip(end + 1))
                &&& !encode_utf8(path.take(end)).contains(SEPARATOR)
            } else {
                !encode_utf8(path).contains(SEPARATOR)
            }
        }),
{
    lemma_first_separator(path);
    let end = first_separator(path);
    lemma_encode_contains(path.take(end), '/');
    if end < path.len() {
        lemma_encode_concat(path.take(end), seq!['/']);
        lemma_encode_concat(path.take(end) + seq!['/'], path.skip(end + 1));
        lemma_encode_one('/');
        lemma_encode_char('/', '/');
        assert(path =~= path.take(end) + seq!['/'] + path.skip(end + 1));
    } else {
        assert(path.take(end) =~= path);
    }
}

/// A path ends with a separator exactly if its encoding ends with the separator byte.
pub proof fn lemma_encode_trim(path: Seq<char>)
    ensures
        path.len() == 0 <==> encode_utf8(path).len() == 0,
        path.len() > 0 ==> (path.last() == '/' <==> encode_utf8(path).last() == SEPARATOR),
        path.len() > 0 && path.last() == '/' ==> encode_utf8(path.drop_last())
            == encode_utf8(path).drop_last(),
{
    if path.len() > 0 {
        lemma_encode_concat(path.drop_last(), seq![path.last()]);
        lemma_encode_one(path.last());
        lemma_encode_char(path.last(), '/');
        assert(path =~= path.drop_last() + seq![path.last()]);
        let last = encode_scalar(path.last() as u32);
        assert(encode_utf8(path).last() == last.last());
        assert(last.contains(last.last()));
    }
}

} // verus!

//! The grouping key: a dotted sequence of member names that leads, inside a
//! document, to the string under which the document is filed.

use crate::json::{lemma_view_parts, members_view, Json, JsonValue};
use crate::order::{compare_text, Rank};
use vstd::prelude::*;
use vstd::string::StrSliceExecFns;

verus! {

/// The number of characters of `s` before its first dot; all of them where
/// `s` has no dot.
pub open spec fn first_dot(s: Seq<char>) -> nat
    decreases s.len(),
{
    if s.len() == 0 || s[0] == '.' {
        0
    } else {
        1 + first_dot(s.drop_first())
    }
}

/// The first member of an object, from the place `from` on, whose name is
/// `name`.
pub open spec fn find_member(members: Seq<(Seq<char>, Json)>, name: Seq<char>, from: int) -> Option<
    Json,
>
    decreases members.len() - from,
{
    if from < 0 || from >= members.len() {
        None
    } else if members[from].0 == name {
        Some(members[from].1)
    } else {
        find_member(members, name, from + 1)
    }
}

/// The value that the key leads to from `j`, read from the place `start` of
/// the key on: each name between dots must be a member of the object reached
/// so far.
pub open spec fn walk(key: Seq<char>, start: int, j: Json) -> Option<Json>
    decreases key.len() - start,
{
    if start < 0 || start > key.len() {
        None
    } else {
        let end = start + first_dot(key.skip(start));
        match j {
            Json::Object(members) => match find_member(members, key.subrange(start, end), 0) {
                Some(v) => if end >= key.len() {
                    Some(v)
                } else {
                    walk(key, end + 1, v)
                },
                None => None,
            },
            _ => None,
        }
    }
}

/// The path of the root of the document `j`: the string that the grouping key
/// leads to, and the empty path where there is no key, where a name is
/// missing or leads through something that is no object, or where the value
/// reached is no string.
pub open spec fn root_path(group: Option<Seq<char>>, j: Json) -> Seq<char> {
    match group {
        Some(key) => match walk(key, 0, j) {
            Some(Json::String(s)) => s,
            _ => Seq::empty(),
        },
        None => Seq::empty(),
    }
}

/// The first dot is inside the text or at its end.
pub proof fn lemma_first_dot(s: Seq<char>)
    ensures
        first_dot(s) <= s.len(),
        forall|i: int| 0 <= i < first_dot(s) ==> s[i] != '.',
        first_dot(s) < s.len() ==> s[first_dot(s) as int] == '.',
    decreases s.len(),
{
    if !(s.len() == 0 || s[0] == '.') {
        let t = s.drop_first();
        lemma_first_dot(t);
        assert forall|i: int| 0 <= i < first_dot(s) implies s[i] != '.' by {
            if i > 0 {
                assert(t[i - 1] == s[i]);
            }
        }
        if first_dot(s) < s.len() {
            assert(t[first_dot(t) as int] == s[first_dot(s) as int]);
        }
    }
}

/// A place reached without meeting a dot is before the first dot.
pub proof fn lemma_first_dot_is(s: Seq<char>, n: int)
    requires
        0 <= n <= s.len(),
        forall|i: int| 0 <= i < n ==> s[i] != '.',
        n < s.len() ==> s[n] == '.',
    ensures
        first_dot(s) == n,
{
    lemma_first_dot(s);
    if first_dot(s) < n {
        assert(s[first_dot(s) as int] == '.');
    }
}

/// The first member of an object that has the name `name`.
pub fn get_member<'a>(members: &'a Vec<(String, JsonValue)>, name: &str) -> (r: Option<
    &'a JsonValue,
>)
    ensures
        match r {
            Some(v) => find_member(members_view(members@), name@, 0) == Some(v@),
            None => find_member(members_view(members@), name@, 0) is None,
        },
{
    let mut i: usize = 0;
    while i < members.len()
        invariant
            i <= members.len(),
            find_member(members_view(members@), name@, 0) == find_member(
                members_view(members@),
                name@,
                i as int,
            ),
        decreases members.len() - i,
    {
        if compare_text(members[i].0.as_str(), name) == Rank::Same {
            return Some(&members[i].1);
        }
        i = i + 1;
    }
    None
}

/// The value that the key leads to from `value`, see [`walk`].
pub fn follow<'a>(key: &str, value: &'a JsonValue) -> (r: Option<&'a JsonValue>)
    ensures
        match r {
            Some(v) => walk(key@, 0, value@) == Some(v@),
            None => walk(key@, 0, value@) is None,
        },
{
    let n = key.unicode_len();
    let mut val: &JsonValue = value;
    let mut start: usize = 0;
    loop
        invariant
            n == key@.len(),
            start <= n,
            walk(key@, 0, value@) == walk(key@, start as int, val@),
        decreases n - start,
    {
        let mut end: usize = start;
        while end < n && key.get_char(end) != '.'
            invariant
                n == key@.len(),
                start <= end <= n,
                forall|i: int| start <= i < end ==> key@[i] != '.',
            decreases n - end,
        {
            end = end + 1;
        }
        proof {
            let rest = key@.skip(start as int);
            assert forall|i: int| 0 <= i < end - start implies rest[i] != '.' by {
                assert(rest[i] == key@[start + i]);
            }
            lemma_first_dot_is(rest, end - start);
            lemma_view_parts(*val);
        }
        let name = key.substring_char(start, end);
        match val {
            JsonValue::Object(members) => {
                match get_member(members, name) {
                    Some(v) => {
                        val = v;
                    },
                    None => {
                        return None;
                    },
                }
            },
            _ => {
                return None;
            },
        }
        if end >= n {
            return Some(val);
        }
        start = end + 1;
    }
}

} // verus!

//! The names of the files beside a store's file: its lock, and the files in which new contents are
//! staged before they take its place.

use crate::text::push_char;
use vstd::prelude::*;
use vstd::string::*;

verus! {

/// The name of a store's file where its path has none.
pub const DEFAULT_FILE_NAME: &'static str = "cultcache.cc";

/// What is put behind the name of a store's file for the name of its lock.
pub const LOCK_SUFFIX: &'static str = ".lock";

/// What ends the name of a staging file.
pub const STAGING_SUFFIX: &'static str = ".tmp";

/// A hexadecimal digit, in either case.
pub open spec fn is_hex(c: char) -> bool {
    '0' <= c <= '9' || 'a' <= c <= 'f' || 'A' <= c <= 'F'
}

/// Groups of 8, 4, 4, 4 and 12 hexadecimal digits with hyphens between them.
pub open spec fn hyphenated(s: Seq<char>) -> bool {
    &&& s.len() == 36
    &&& forall|i: int|
        0 <= i < 36 ==> if i == 8 || i == 13 || i == 18 || i == 23 {
            #[trigger] s[i] == '-'
        } else {
            is_hex(s[i])
        }
}

/// `t` is `s` up to the case of ASCII letters, where `s` is in lower case.
pub open spec fn same_in_lower_case(s: Seq<char>, t: Seq<char>) -> bool {
    &&& s.len() == t.len()
    &&& forall|i: int|
        0 <= i < s.len() ==> #[trigger] t[i] == s[i] || ('A' <= t[i] <= 'Z' && t[i] as u32 + 32
            == s[i] as u32)
}

/// The text of a UUID: 32 hexadecimal digits; or these in groups with hyphens between them, as
/// they are, in braces, or behind `urn:uuid:`.
pub open spec fn is_uuid(s: Seq<char>) -> bool {
    ||| s.len() == 32 && forall|i: int| 0 <= i < 32 ==> is_hex(#[trigger] s[i])
    ||| hyphenated(s)
    ||| s.len() == 38 && s[0] == '{' && s[37] == '}' && hyphenated(s.subrange(1, 37))
    ||| s.len() == 45 && same_in_lower_case("urn:uuid:"@, s.take(9)) && hyphenated(s.skip(9))
}

/// `uuid::Uuid::new_v4` put in words by `to_string`: hexadecimal digits in groups with hyphens
/// between them. Which digits is left to chance.
#[verifier::external_body]
fn fresh_uuid() -> (id: String)
    ensures
        hyphenated(id@),
{
    uuid::Uuid::new_v4().to_string()
}

/// Whether `uuid::Uuid::parse_str` takes `s`.
#[verifier::external_body]
fn parses_as_uuid(s: &str) -> (parses: bool)
    ensures
        parses == is_uuid(s@),
{
    uuid::Uuid::parse_str(s).is_ok()
}

/// The name of a store's file, or the default one.
pub open spec fn base_name(file_name: Option<Seq<char>>) -> Seq<char> {
    match file_name {
        Some(name) => name,
        None => DEFAULT_FILE_NAME@,
    }
}

/// What an optional name holds.
pub open spec fn name_option(file_name: Option<&str>) -> Option<Seq<char>> {
    match file_name {
        Some(name) => Some(name@),
        None => None,
    }
}

/// `name` is the name of a staging file for the file of the name `destination`.
pub open spec fn stages(destination: Seq<char>, name: Seq<char>) -> bool {
    exists|id: Seq<char>| #[trigger]
        is_uuid(id) && name == destination + "."@ + id + STAGING_SUFFIX@
}

/// The name of the lock file beside a store's file.
pub fn lock_file_name(file_name: Option<&str>) -> (name: String)
    ensures
        name@ == base_name(name_option(file_name)) + LOCK_SUFFIX@,
{
    let mut name = match file_name {
        Some(name) => name.to_owned(),
        None => DEFAULT_FILE_NAME.to_owned(),
    };
    name.append(LOCK_SUFFIX);
    name
}

/// What is put behind the name of a store's file for the name of the staging file of the id `id`.
pub fn suffix_of(id: &str) -> (suffix: String)
    ensures
        suffix@ == "."@ + id@ + STAGING_SUFFIX@,
{
    let mut suffix = String::new();
    suffix.append(".");
    suffix.append(id);
    suffix.append(STAGING_SUFFIX);
    assert(suffix@ =~= "."@ + id@ + STAGING_SUFFIX@);
    suffix
}

/// `id` is a UUID that was drawn.
pub closed spec fn uuid_drawn(id: Seq<char>) -> bool {
    exists|drawn: String| #[trigger] call_ensures(fresh_uuid, (), drawn) && drawn@ == id
}

/// What is put behind the name of a store's file for the name of a fresh staging file.
pub fn staging_suffix() -> (suffix: String)
    ensures
        exists|id: Seq<char>| #[trigger]
            hyphenated(id) && uuid_drawn(id) && suffix@ == "."@ + id + STAGING_SUFFIX@,
{
    let id = fresh_uuid();
    assert(call_ensures(fresh_uuid, (), id));
    let suffix = suffix_of(id.as_str());
    assert(hyphenated(id@) && suffix@ == "."@ + id@ + STAGING_SUFFIX@);
    suffix
}

/// The name of a fresh staging file for a store's file.
pub fn staging_file_name(file_name: Option<&str>) -> (name: String)
    ensures
        stages(base_name(name_option(file_name)), name@),
        exists|id: Seq<char>| #[trigger]
            uuid_drawn(id) && name@ == base_name(name_option(file_name)) + "."@ + id
                + STAGING_SUFFIX@,
{
    let mut name = match file_name {
        Some(name) => name.to_owned(),
        None => DEFAULT_FILE_NAME.to_owned(),
    };
    let ghost base = name@;
    let suffix = staging_suffix();
    name.append(suffix.as_str());
    proof {
        let id = choose|id: Seq<char>| #[trigger]
            hyphenated(id) && uuid_drawn(id) && suffix@ == "."@ + id + STAGING_SUFFIX@;
        assert(is_uuid(id));
        assert(name@ =~= base + "."@ + id + STAGING_SUFFIX@);
    }
    name
}

/// The characters of `s`.
fn chars_of(s: &str) -> (chars: Vec<char>)
    ensures
        chars@ == s@,
{
    broadcast use vstd::string::group_string_axioms;

    let mut chars: Vec<char> = Vec::new();
    let mut left = s.chars();
    let ghost mut n: int = 0;
    assert(s@.skip(0) =~= s@);
    assert(s@.take(0) =~= Seq::<char>::empty());
    loop
        invariant
            0 <= n <= s@.len(),
            vstd::std_specs::iter::IteratorSpec::remaining(&left) == s@.skip(n),
            chars@ == s@.take(n),
        decreases s@.len() - n,
    {
        broadcast use vstd::string::group_string_axioms;

        match left.next() {
            None => {
                assert(s@.take(n) =~= s@);
                return chars;
            },
            Some(c) => {
                chars.push(c);
                proof {
                    assert(c == s@[n]);
                    assert(s@.take(n + 1) =~= s@.take(n).push(c));
                    assert(s@.skip(n).drop_first() =~= s@.skip(n + 1));
                    n = n + 1;
                }
            },
        }
    }
}

/// Whether `part` stands in `whole` at `at`.
fn stands_at(whole: &Vec<char>, at: usize, part: &Vec<char>) -> (stands: bool)
    requires
        at + part@.len() <= whole@.len(),
    ensures
        stands == (whole@.subrange(at as int, at + part@.len()) == part@),
{
    let n: usize = whole.len();
    let mut i: usize = 0;
    while i < part.len()
        invariant
            i <= part@.len(),
            n == whole@.len(),
            at + part@.len() <= n,
            forall|j: int| 0 <= j < i ==> whole@[at + j] == #[trigger] part@[j],
        decreases part@.len() - i,
    {
        if whole[at + i] != part[i] {
            proof {
                assert(whole@.subrange(at as int, at + part@.len())[i as int] != part@[i as int]);
            }
            return false;
        }
        i = i + 1;
    }
    assert(whole@.subrange(at as int, at + part@.len()) =~= part@);
    true
}

/// The characters of `whole` from `from` up to `to`.
fn text_between(whole: &Vec<char>, from: usize, to: usize) -> (text: String)
    requires
        from <= to <= whole@.len(),
    ensures
        text@ == whole@.subrange(from as int, to as int),
{
    let mut text = String::new();
    let mut i: usize = from;
    assert(text@ =~= whole@.subrange(from as int, from as int));
    while i < to
        invariant
            from <= i <= to <= whole@.len(),
            text@ == whole@.subrange(from as int, i as int),
        decreases to - i,
    {
        push_char(&mut text, whole[i]);
        proof {
            assert(whole@.subrange(from as int, i + 1) =~= whole@.subrange(
                from as int,
                i as int,
            ).push(whole@[i as int]));
        }
        i = i + 1;
    }
    text
}

/// Whether `name` is the name of a staging file for the file of the name `destination_name`.
pub fn is_abandoned_staging_name(destination_name: &str, name: &str) -> (staged: bool)
    ensures
        staged == stages(destination_name@, name@),
{
    let mut prefix = destination_name.to_owned();
    prefix.append(".");
    let start = chars_of(prefix.as_str());
    let end = chars_of(STAGING_SUFFIX);
    let whole = chars_of(name);
    let ghost before = destination_name@ + "."@;
    let n: usize = whole.len();
    let kept: usize = start.len();
    let ghost d = destination_name@;
    if kept > n || end.len() > n - kept {
        proof {
            if stages(d, name@) {
                let id = choose|id: Seq<char>| #[trigger]
                    is_uuid(id) && name@ == d + "."@ + id + STAGING_SUFFIX@;
                assert(name@.len() == before.len() + id.len() + end@.len());
            }
        }
        return false;
    }
    let to: usize = n - end.len();
    if !stands_at(&whole, 0, &start) || !stands_at(&whole, to, &end) {
        proof {
            if stages(d, name@) {
                let id = choose|id: Seq<char>| #[trigger]
                    is_uuid(id) && name@ == d + "."@ + id + STAGING_SUFFIX@;
                assert(whole@.subrange(0, kept as int) =~= before);
                assert(whole@.subrange(to as int, n as int) =~= STAGING_SUFFIX@);
            }
        }
        return false;
    }
    let candidate = text_between(&whole, kept, to);
    let staged = parses_as_uuid(candidate.as_str());
    proof {
        let id = candidate@;
        assert(name@ =~= d + "."@ + id + STAGING_SUFFIX@) by {
            assert(whole@.subrange(0, kept as int) == before);
            assert(whole@.subrange(to as int, n as int) == STAGING_SUFFIX@);
            assert(whole@ =~= whole@.subrange(0, kept as int) + whole@.subrange(
                kept as int,
                to as int,
            ) + whole@.subrange(to as int, n as int));
        }
        if stages(d, name@) {
            let other = choose|other: Seq<char>| #[trigger]
                is_uuid(other) && name@ == d + "."@ + other + STAGING_SUFFIX@;
            assert(name@.subrange(kept as int, to as int) =~= other);
            assert(name@.subrange(kept as int, to as int) =~= id);
        }
    }
    staged
}

/// The name that is given to a fresh staging file is known again as one.
pub proof fn fresh_staging_name_is_known(destination: Seq<char>, suffix: Seq<char>, id: Seq<char>)
    requires
        hyphenated(id),
        suffix == "."@ + id + STAGING_SUFFIX@,
    ensures
        stages(destination, destination + suffix),
{
    assert(is_uuid(id));
    assert(destination + suffix =~= destination + "."@ + id + STAGING_SUFFIX@);
}

/// A lock file is not taken for a staging file.
pub proof fn lock_name_is_no_staging_name(destination: Seq<char>)
    ensures
        !stages(destination, destination + LOCK_SUFFIX@),
{
    let name = destination + LOCK_SUFFIX@;
    if stages(destination, name) {
        let id = choose|id: Seq<char>| #[trigger]
            is_uuid(id) && name == destination + "."@ + id + STAGING_SUFFIX@;
        reveal_strlit(".lock");
        reveal_strlit(".tmp");
        reveal_strlit(".");
        assert(name.len() == destination.len() + 5);
        assert(id.len() >= 32);
        assert(name.len() == destination.len() + 1 + id.len() + 4);
    }
}

/// A name is that of a staging file exactly where it is the file's own name, a dot, the text of a
/// UUID and the ending of staging files, one behind the other: whoever knows a name and the file
/// can read the UUID off.
pub proof fn staging_name_is_taken_apart(destination: Seq<char>, name: Seq<char>)
    ensures
        stages(destination, name) <==> {
            &&& name.len() >= destination.len() + 5
            &&& name.take(destination.len() as int) == destination
            &&& name[destination.len() as int] == '.'
            &&& name.skip(name.len() - 4) == seq!['.', 't', 'm', 'p']
            &&& is_uuid(name.subrange(destination.len() as int + 1, name.len() - 4))
        },
{
    reveal_strlit(".");
    reveal_strlit(".tmp");
    let d = destination.len() as int;
    if stages(destination, name) {
        let id = choose|id: Seq<char>| #[trigger]
            is_uuid(id) && name == destination + "."@ + id + STAGING_SUFFIX@;
        assert(name.len() == d + 1 + id.len() + 4);
        assert(name.take(d) =~= destination);
        assert(name.skip(name.len() - 4) =~= seq!['.', 't', 'm', 'p']);
        assert(name.subrange(d + 1, name.len() - 4) =~= id);
    }
    if name.len() >= destination.len() + 5 && name.take(d) == destination && name[d] == '.'
        && name.skip(name.len() - 4) == seq!['.', 't', 'm', 'p'] && is_uuid(
        name.subrange(d + 1, name.len() - 4),
    ) {
        let id = name.subrange(d + 1, name.len() - 4);
        let end = name.skip(name.len() - 4);
        let built = destination + "."@ + id + STAGING_SUFFIX@;
        assert forall|i: int| 0 <= i < name.len() implies built[i] == name[i] by {
            if i < d {
                assert(name.take(d)[i] == name[i]);
            } else if i >= name.len() - 4 {
                assert(end[i - (name.len() - 4)] == name[i]);
            }
        }
        assert(name =~= built);
        assert(is_uuid(id) && name == destination + "."@ + id + STAGING_SUFFIX@);
    }
}

} // verus!

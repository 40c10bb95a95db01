//! Finding the game's library in Steam's `libraryfolders.vdf`.
use vstd::prelude::*;

verus! {

/// A library block of `libraryfolders.vdf`: a quoted digit, then a braced body.
pub const LIBRARY_PATTERN: &'static str = "(?m)\"\\d\"\\n\\s\\{\\n[\\s\\S]+?}\\n\\s}";

/// The line that lists the game's app id among a library's apps.
pub const APP_PATTERN: &'static str = "(?m)\\t{3}\"570\"\\t{2}\"\\d+\"\\n";

/// A quoted drive path; its first group is the path.
pub const PATH_PATTERN: &'static str = "(?m)\"(\\w+:\\\\\\\\.+)\"\\n";

/// Whether the regex crate accepts `pattern`.
pub uninterp spec fn regex_compiles(pattern: Seq<char>) -> bool;

/// The successive matches of `pattern` in `text`.
pub uninterp spec fn regex_matches(pattern: Seq<char>, text: Seq<char>) -> Seq<Seq<char>>;

/// Whether `pattern` matches somewhere in `text`.
pub uninterp spec fn regex_is_match(pattern: Seq<char>, text: Seq<char>) -> bool;

/// Group `group` of the first match of `pattern` in `text`, when there is a
/// match and the group took part in it.
pub uninterp spec fn regex_capture(pattern: Seq<char>, text: Seq<char>, group: int) -> Option<Seq<char>>;

pub open spec fn opt_view(o: Option<String>) -> Option<Seq<char>> {
    match o {
        Some(s) => Some(s@),
        None => None,
    }
}

/// Relies on `regex::Regex::new` (whether the pattern compiles) and
/// `Regex::find_iter` (the text of each match, in order).
#[verifier::external_body]
fn find_all(pattern: &str, text: &str) -> (r: Option<Vec<String>>)
    ensures
        r is Some <==> regex_compiles(pattern@),
        r matches Some(v) ==> v@.map_values(|s: String| s@) == regex_matches(pattern@, text@),
{
    match regex::Regex::new(pattern) {
        Ok(re) => Some(re.find_iter(text).map(|m| m.as_str().to_string()).collect()),
        Err(_) => None,
    }
}

/// Relies on `regex::Regex::new` (whether the pattern compiles) and
/// `Regex::is_match`.
#[verifier::external_body]
fn is_match_in(pattern: &str, text: &str) -> (r: Option<bool>)
    ensures
        r is Some <==> regex_compiles(pattern@),
        r matches Some(b) ==> b == regex_is_match(pattern@, text@),
{
    match regex::Regex::new(pattern) {
        Ok(re) => Some(re.is_match(text)),
        Err(_) => None,
    }
}

/// Relies on `regex::Regex::new` (whether the pattern compiles),
/// `Regex::captures` and `Captures::get`: the text of group `group` of the
/// first match.
#[verifier::external_body]
fn capture_in(pattern: &str, text: &str, group: usize) -> (r: Option<Option<String>>)
    ensures
        r is Some <==> regex_compiles(pattern@),
        r matches Some(c) ==> opt_view(c) == regex_capture(pattern@, text@, group as int),
{
    match regex::Regex::new(pattern) {
        Ok(re) => Some(re.captures(text).and_then(|c| c.get(group)).map(|m| m.as_str().to_string())),
        Err(_) => None,
    }
}

/// The path of the first block that lists the game, or none.
pub open spec fn first_listed_spec(found: Seq<bool>, paths: Seq<Option<Seq<char>>>) -> Option<Seq<char>>
    decreases found.len(),
{
    if found.len() == 0 || paths.len() == 0 {
        None
    } else if found[0] {
        paths[0]
    } else {
        first_listed_spec(found.drop_first(), paths.drop_first())
    }
}

/// The library path that the blocks `blocks` of a library file name for the game.
pub open spec fn library_of(blocks: Seq<Seq<char>>) -> Option<Seq<char>> {
    first_listed_spec(
        blocks.map_values(|b: Seq<char>| regex_is_match(APP_PATTERN@, b)),
        blocks.map_values(|b: Seq<char>| regex_capture(PATH_PATTERN@, b, 1)),
    )
}

/// Of library blocks where `found[i]` tells whether block `i` lists the game
/// and `paths[i]` is the path that block names, the path of the first that
/// lists it.
pub fn first_listed(found: &Vec<bool>, paths: &Vec<Option<String>>) -> (r: Option<String>)
    requires
        found@.len() == paths@.len(),
    ensures
        opt_view(r) == first_listed_spec(found@, paths@.map_values(|p: Option<String>| opt_view(p))),
{
    let ghost pv = paths@.map_values(|p: Option<String>| opt_view(p));
    let mut i: usize = 0;
    assert(found@.subrange(0, found@.len() as int) =~= found@);
    assert(pv.subrange(0, pv.len() as int) =~= pv);
    while i < found.len()
        invariant
            found@.len() == paths@.len(),
            pv == paths@.map_values(|p: Option<String>| opt_view(p)),
            i <= found@.len(),
            first_listed_spec(found@, pv) == first_listed_spec(found@.subrange(i as int, found@.len() as int), pv.subrange(i as int, pv.len() as int)),
        decreases found@.len() - i,
    {
        let ghost f = found@.subrange(i as int, found@.len() as int);
        let ghost p = pv.subrange(i as int, pv.len() as int);
        if found[i] {
            assert(f[0] == found@[i as int]);
            assert(p[0] == opt_view(paths@[i as int]));
            return match &paths[i] {
                Some(s) => Some(s.clone()),
                None => None,
            };
        }
        assert(f.drop_first() =~= found@.subrange(i + 1, found@.len() as int));
        assert(p.drop_first() =~= pv.subrange(i + 1, pv.len() as int));
        i = i + 1;
    }
    None
}

/// The library path that Steam's library file `lib_file` names for the game:
/// the path of the first library block that lists the game. None when no
/// block lists it, or when a pattern does not compile.
pub fn find_library_path(lib_file: &str) -> (r: Option<String>)
    ensures
        regex_compiles(LIBRARY_PATTERN@) && regex_compiles(APP_PATTERN@) && regex_compiles(PATH_PATTERN@)
            ==> opt_view(r) == library_of(regex_matches(LIBRARY_PATTERN@, lib_file@)),
        !(regex_compiles(LIBRARY_PATTERN@) && regex_compiles(APP_PATTERN@) && regex_compiles(PATH_PATTERN@))
            ==> r is None,
{
    let blocks = match find_all(LIBRARY_PATTERN, lib_file) {
        Some(b) => b,
        None => {
            return None;
        },
    };
    let ghost bv = blocks@.map_values(|s: String| s@);
    let mut found: Vec<bool> = Vec::new();
    let mut paths: Vec<Option<String>> = Vec::new();
    let mut i: usize = 0;
    while i < blocks.len()
        invariant
            bv == blocks@.map_values(|s: String| s@),
            i <= blocks@.len(),
            found@.len() == i,
            paths@.len() == i,
            i > 0 ==> regex_compiles(APP_PATTERN@) && regex_compiles(PATH_PATTERN@),
            forall|j: int| 0 <= j < i ==> found@[j] == regex_is_match(APP_PATTERN@, #[trigger] bv[j]),
            forall|j: int| 0 <= j < i ==> opt_view(#[trigger] paths@[j]) == regex_capture(PATH_PATTERN@, bv[j], 1),
        decreases blocks@.len() - i,
    {
        let b = blocks[i].as_str();
        let listed = match is_match_in(APP_PATTERN, b) {
            Some(x) => x,
            None => {
                return None;
            },
        };
        let path = match capture_in(PATH_PATTERN, b, 1) {
            Some(p) => p,
            None => {
                return None;
            },
        };
        found.push(listed);
        paths.push(path);
        i = i + 1;
    }
    let r = first_listed(&found, &paths);
    proof {
        assert(found@ =~= bv.map_values(|b: Seq<char>| regex_is_match(APP_PATTERN@, b)));
        assert(paths@.map_values(|p: Option<String>| opt_view(p))
            =~= bv.map_values(|b: Seq<char>| regex_capture(PATH_PATTERN@, b, 1)));
        if blocks@.len() == 0 {
            assert(first_listed_spec(found@, paths@.map_values(|p: Option<String>| opt_view(p))) == None::<Seq<char>>);
        }
    }
    r
}

} // verus!

//! The list of source folders chosen in the window: which folder may be
//! added to it, and when a run may start.

use vstd::prelude::*;
use vstd::utf8::encode_utf8;
use crate::paths::SLASH;

verus! {

/// What becomes of a folder picked to be added to the source list.
#[derive(Debug)]
pub enum AddSourceDecision {
    /// Nothing was picked (empty path): the list stays as it is.
    Ignore,
    /// The folder, or a folder that contains it, is listed already: warn.
    Refuse,
    /// Add the folder to the list.
    Accept,
}

/// `listed` is `path` itself or one of its ancestor folders, `/` being the
/// separator: a prefix of `path` that ends where a component ends.
pub open spec fn covers(listed: Seq<u8>, path: Seq<u8>) -> bool {
    &&& listed.len() <= path.len()
    &&& path.subrange(0, listed.len() as int) == listed
    &&& (listed.len() == path.len() || path[listed.len() as int] == SLASH)
}

/// Some listed folder covers `path`.
pub open spec fn listed_already(list: Seq<Seq<u8>>, path: Seq<u8>) -> bool {
    exists|i: int| 0 <= i < list.len() && covers(#[trigger] list[i], path)
}

/// The UTF-8 bytes of each string of `list`.
pub open spec fn list_bytes(list: Seq<String>) -> Seq<Seq<u8>> {
    list.map_values(|s: String| encode_utf8(s@))
}

/// The decision for `path`, given the folders listed so far.
pub open spec fn add_source_decision(list: Seq<Seq<u8>>, path: Seq<u8>) -> AddSourceDecision {
    if path.len() == 0 {
        AddSourceDecision::Ignore
    } else if listed_already(list, path) {
        AddSourceDecision::Refuse
    } else {
        AddSourceDecision::Accept
    }
}

fn covers_exec(listed: &[u8], path: &[u8]) -> (c: bool)
    ensures
        c == covers(listed@, path@),
{
    if listed.len() > path.len() {
        return false;
    }
    let mut i: usize = 0;
    while i < listed.len()
        invariant
            listed@.len() <= path@.len(),
            i <= listed@.len(),
            forall|j: int| 0 <= j < i ==> path@[j] == listed@[j],
        decreases listed@.len() - i,
    {
        if listed[i] != path[i] {
            assert(path@.subrange(0, listed@.len() as int)[i as int] != listed@[i as int]);
            return false;
        }
        i = i + 1;
    }
    assert(path@.subrange(0, listed@.len() as int) =~= listed@);
    listed.len() == path.len() || path[listed.len()] == SLASH
}

/// Decides what to do with a folder picked to be added to the source list.
pub fn decide_add_source(list: &Vec<String>, path: &str) -> (d: AddSourceDecision)
    ensures
        d == add_source_decision(list_bytes(list@), encode_utf8(path@)),
{
    let path_bytes = path.as_bytes();
    if path_bytes.len() == 0 {
        return AddSourceDecision::Ignore;
    }
    let ghost listed = list_bytes(list@);
    let mut i: usize = 0;
    while i < list.len()
        invariant
            i <= list@.len(),
            listed == list_bytes(list@),
            path_bytes@ == encode_utf8(path@),
            path_bytes@.len() > 0,
            forall|j: int| 0 <= j < i ==> !covers(#[trigger] listed[j], path_bytes@),
        decreases list@.len() - i,
    {
        let item = list[i].as_str().as_bytes();
        assert(item@ == listed[i as int]);
        if covers_exec(item, path_bytes) {
            assert(covers(listed[i as int], path_bytes@));
            assert(listed_already(listed, path_bytes@));
            return AddSourceDecision::Refuse;
        }
        i = i + 1;
    }
    AddSourceDecision::Accept
}

/// Whether a run may start: a target is given and at least one source.
pub fn start_enabled(target: &str, source_count: i32) -> (enabled: bool)
    ensures
        enabled == (target@.len() > 0 && source_count > 0),
{
    !target.is_empty() && source_count > 0
}

/// Any folder already in the list, wherever it stands, is refused when
/// picked again.
pub proof fn lemma_listed_folder_refused(list: Seq<Seq<u8>>, i: int)
    requires
        0 <= i < list.len(),
        list[i].len() > 0,
    ensures
        add_source_decision(list, list[i]) == AddSourceDecision::Refuse,
{
    assert(list[i].subrange(0, list[i].len() as int) =~= list[i]);
    assert(covers(list[i], list[i]));
}

/// What the decision is, in full: nothing happens for an empty pick; a pick
/// is refused exactly when some listed folder, at any position, is the
/// picked folder itself or one of its ancestors (a prefix followed by `/`);
/// every other pick is accepted.
pub proof fn lemma_add_source_decision_meaning(list: Seq<Seq<u8>>, path: Seq<u8>)
    ensures
        path.len() == 0 <==> add_source_decision(list, path) == AddSourceDecision::Ignore,
        path.len() > 0 ==> ((add_source_decision(list, path) == AddSourceDecision::Refuse) <==> exists|
            i: int,
        |
            0 <= i < list.len() && (#[trigger] list[i] == path || (list[i].len() < path.len()
                && path.subrange(0, list[i].len() as int) == list[i] && path[list[i].len() as int]
                == SLASH))),
        path.len() > 0 ==> (add_source_decision(list, path) is Accept <==> !(add_source_decision(
            list,
            path,
        ) is Refuse)),
{
    if path.len() > 0 {
        if add_source_decision(list, path) == AddSourceDecision::Refuse {
            let i = choose|i: int| 0 <= i < list.len() && covers(#[trigger] list[i], path);
            if list[i].len() == path.len() {
                assert(path.subrange(0, path.len() as int) =~= path);
                assert(list[i] == path);
            }
        }
        if exists|i: int|
            0 <= i < list.len() && (#[trigger] list[i] == path || (list[i].len() < path.len()
                && path.subrange(0, list[i].len() as int) == list[i] && path[list[i].len() as int]
                == SLASH)) {
            let i = choose|i: int|
                0 <= i < list.len() && (#[trigger] list[i] == path || (list[i].len() < path.len()
                    && path.subrange(0, list[i].len() as int) == list[i] && path[list[i].len() as int]
                    == SLASH));
            if list[i] == path {
                assert(path.subrange(0, path.len() as int) =~= path);
            }
            assert(covers(list[i], path));
        }
    }
}

/// A folder just added is refused the next time it is picked.
pub proof fn lemma_added_folder_refused_again(list: Seq<Seq<u8>>, path: Seq<u8>)
    requires
        path.len() > 0,
    ensures
        add_source_decision(list.push(path), path) == AddSourceDecision::Refuse,
{
    let l = list.push(path);
    assert(path.subrange(0, path.len() as int) =~= path);
    assert(covers(l[list.len() as int], path));
}

/// A folder inside a listed folder is refused.
pub proof fn lemma_subfolder_refused(list: Seq<Seq<u8>>, i: int, rest: Seq<u8>)
    requires
        0 <= i < list.len(),
    ensures
        add_source_decision(list, list[i] + seq![SLASH] + rest) == AddSourceDecision::Refuse,
{
    let path = list[i] + seq![SLASH] + rest;
    assert(path.subrange(0, list[i].len() as int) =~= list[i]);
    assert(path[list[i].len() as int] == SLASH);
    assert(covers(list[i], path));
}

} // verus!

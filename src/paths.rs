use vstd::prelude::*;

verus! {

/// What `std::path::Path::join` makes of two paths on Unix: an absolute
/// `rel` replaces `base`; otherwise `rel` follows `base`, with a `/` between
/// them unless `base` is empty or already ends in one.
pub open spec fn joined(base: Seq<char>, rel: Seq<char>) -> Seq<char> {
    if rel.len() > 0 && rel[0] == '/' {
        rel
    } else if base.len() == 0 || base.last() == '/' {
        base + rel
    } else {
        base + seq!['/'] + rel
    }
}

/// What `std::path::Path::parent` gives for a path.
pub uninterp spec fn parent_of(path: Seq<char>) -> Option<Seq<char>>;

/// Relies on `std::path::Path::join` (through `PathBuf::push`): an absolute
/// path replaces the base, a relative one is appended after a separator.
#[verifier::external_body]
pub(crate) fn join_path(base: &str, rel: &str) -> (r: String)
    ensures
        r@ == joined(base@, rel@),
{
    std::path::Path::new(base).join(rel).to_string_lossy().into_owned()
}

/// Relies on `std::path::Path::parent`: `None` for a root or an empty path.
#[verifier::external_body]
pub(crate) fn path_parent(path: &str) -> (r: Option<String>)
    ensures
        match r {
            Some(d) => parent_of(path@) == Some(d@),
            None => parent_of(path@).is_none(),
        },
{
    std::path::Path::new(path).parent().map(|d| d.to_string_lossy().into_owned())
}

/// Each of `rels` joined onto `base`.
pub open spec fn joined_all(base: Seq<char>, rels: Seq<Seq<char>>) -> Seq<Seq<char>> {
    rels.map_values(|r: Seq<char>| joined(base, r))
}

/// Joins each relative path onto `base`, keeping their order.
pub fn join_all(base: &str, rels: &[String]) -> (r: Vec<String>)
    ensures
        crate::config::texts(r@) == joined_all(base@, crate::config::texts(rels@)),
{
    let mut r: Vec<String> = Vec::new();
    let mut i: usize = 0;
    while i < rels.len()
        invariant
            i <= rels@.len(),
            crate::config::texts(r@) == joined_all(base@, crate::config::texts(rels@.subrange(0, i as int))),
        decreases rels@.len() - i,
    {
        let p = join_path(base, rels[i].as_str());
        let ghost before = r@;
        r.push(p);
        proof {
            let want = joined_all(base@, crate::config::texts(rels@.subrange(0, i + 1)));
            let prev = joined_all(base@, crate::config::texts(rels@.subrange(0, i as int)));
            assert(crate::config::texts(before).len() == before.len());
            assert(prev.len() == i);
            assert forall|j: int| 0 <= j < i + 1 implies #[trigger] crate::config::texts(r@)[j] == want[j] by {
                if j < i {
                    assert(r@[j] == before[j]);
                    assert(crate::config::texts(before)[j] == prev[j]);
                }
            }
            assert(crate::config::texts(r@) =~= want);
        }
        i += 1;
    }
    assert(rels@.subrange(0, rels@.len() as int) =~= rels@);
    r
}

} // verus!

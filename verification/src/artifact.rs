//! Where the artifacts of an instance live.
use vstd::prelude::*;
use crate::text::{chars_of, push_char, push_str};

verus! {

/// `base` with `part` appended as a path component (`Path::join` on a Unix path): an
/// absolute `part` replaces `base`; otherwise a `/` goes between them unless `base` is
/// empty or already ends with one.
pub open spec fn path_join(base: Seq<char>, part: Seq<char>) -> Seq<char> {
    if part.len() > 0 && part[0] == '/' {
        part
    } else if base.len() == 0 || base.last() == '/' {
        base + part
    } else {
        base + seq!['/'] + part
    }
}

/// `base` joined with `part` (see `path_join`).
pub fn join_path(base: &str, part: &str) -> (r: String)
    ensures
        r@ == path_join(base@, part@),
{
    let pv = chars_of(part);
    if pv.len() > 0 && pv[0] == '/' {
        return String::from_str(part);
    }
    let bv = chars_of(base);
    let mut r = String::from_str(base);
    if !(bv.len() == 0 || bv[bv.len() - 1] == '/') {
        push_char(&mut r, '/');
    }
    push_str(&mut r, part);
    r
}

/// The directory of the instance `instance_id` of `workflow` under the project root.
pub open spec fn instance_path(root: Seq<char>, workflow: Seq<char>, instance_id: Seq<char>) -> Seq<char> {
    path_join(path_join(path_join(path_join(root, ".workflows"@), workflow), "instance"@), instance_id)
}

/// The directory of an instance: `<root>/.workflows/<workflow>/instance/<instance_id>`.
pub fn instance_dir(root: &str, workflow: &str, instance_id: &str) -> (r: String)
    ensures
        r@ == instance_path(root@, workflow@, instance_id@),
{
    let a = join_path(root, ".workflows");
    let b = join_path(a.as_str(), workflow);
    let c = join_path(b.as_str(), "instance");
    join_path(c.as_str(), instance_id)
}

/// The directory that holds the artifacts of one execution of a node.
pub open spec fn artifact_path(
    root: Seq<char>,
    workflow: Seq<char>,
    instance_id: Seq<char>,
    node_name: Seq<char>,
    invoke: Seq<char>,
) -> Seq<char> {
    path_join(
        path_join(path_join(instance_path(root, workflow, instance_id), "artifacts"@), node_name),
        invoke,
    )
}

/// `<root>/.workflows/<workflow>/instance/<instance_id>/artifacts/<node_name>/<invoke>`.
pub fn artifact_dir(root: &str, workflow: &str, instance_id: &str, node_name: &str, invoke: &str) -> (r: String)
    ensures
        r@ == artifact_path(root@, workflow@, instance_id@, node_name@, invoke@),
{
    let i = instance_dir(root, workflow, instance_id);
    let a = join_path(i.as_str(), "artifacts");
    let n = join_path(a.as_str(), node_name);
    join_path(n.as_str(), invoke)
}

/// The path of the flow definition of `workflow`.
pub open spec fn flow_path(root: Seq<char>, workflow: Seq<char>) -> Seq<char> {
    path_join(path_join(path_join(path_join(root, ".workflows"@), workflow), "meta-data"@), "flow.json"@)
}

/// `<root>/.workflows/<workflow>/meta-data/flow.json`.
pub fn flow_file(root: &str, workflow: &str) -> (r: String)
    ensures
        r@ == flow_path(root@, workflow@),
{
    let a = join_path(root, ".workflows");
    let b = join_path(a.as_str(), workflow);
    let c = join_path(b.as_str(), "meta-data");
    join_path(c.as_str(), "flow.json")
}

} // verus!

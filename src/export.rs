use vstd::prelude::*;
use crate::node::Node;

verus! {

/// The export file of a note with this title under `dir`.
pub open spec fn export_path(dir: Seq<char>, title: Seq<char>) -> Seq<char> {
    dir + seq!['/'] + title + seq!['.', 'm', 'd']
}

/// The converter's flag for exporting the note's subtree only: `t` for a
/// section, `nil` for a whole file.
pub open spec fn subtree_flag(level: i32) -> Seq<char> {
    if level == 0 {
        seq!['n', 'i', 'l']
    } else {
        seq!['t']
    }
}

/// The program that the converter runs to export one note.
pub open spec fn export_script(id: Seq<char>, title: Seq<char>, target: Seq<char>, level: i32) -> Seq<
    char,
> {
    "(progn (message \"Exporting "@ + title + "\") (require 'ox-gfm) (org-roam-node-open (org-roam-node-from-id \""@
        + id + "\")) (org-export-to-file 'gfm \""@ + target + "\" nil "@ + subtree_flag(level)
        + "))"@
}

/// What the converter is asked to do for one note.
pub struct ExportJob {
    pub target_file: String,
    pub subtree_only: bool,
    pub script: String,
}

/// The path `<target_dir>/<title>.md` that `node` is exported to.
pub fn target_file(target_dir: &str, node: &Node) -> (r: String)
    ensures
        r@ == export_path(target_dir@, node.title@),
{
    let mut r = String::new();
    r.append(target_dir);
    r.append("/");
    r.append(node.title.as_str());
    r.append(".md");
    proof {
        reveal_strlit("/");
        reveal_strlit(".md");
        assert(r@ =~= export_path(target_dir@, node.title@));
    }
    r
}

/// The converter program that exports `node` to `target`.
pub fn script_for(node: &Node, target: &str) -> (r: String)
    ensures
        r@ == export_script(node.id@, node.title@, target@, node.level),
{
    let mut r = String::new();
    r.append("(progn (message \"Exporting ");
    r.append(node.title.as_str());
    r.append("\") (require 'ox-gfm) (org-roam-node-open (org-roam-node-from-id \"");
    r.append(node.id.as_str());
    r.append("\")) (org-export-to-file 'gfm \"");
    r.append(target);
    r.append("\" nil ");
    if node.level == 0 {
        r.append("nil");
    } else {
        r.append("t");
    }
    r.append("))");
    proof {
        reveal_strlit("nil");
        reveal_strlit("t");
        assert(r@ =~= export_script(node.id@, node.title@, target@, node.level));
    }
    r
}

/// Decides whether `node` must be exported: not when its export file already
/// exists, which leaves that file alone and makes a run resumable.
pub fn plan_export(target_dir: &str, node: &Node, target_exists: bool) -> (r: Option<ExportJob>)
    ensures
        r is None <==> target_exists,
        r matches Some(job) ==> {
            &&& job.target_file@ == export_path(target_dir@, node.title@)
            &&& job.subtree_only == (node.level != 0)
            &&& job.script@ == export_script(node.id@, node.title@, job.target_file@, node.level)
        },
{
    if target_exists {
        return None;
    }
    let target = target_file(target_dir, node);
    let script = script_for(node, target.as_str());
    Some(ExportJob { target_file: target, subtree_only: node.level != 0, script })
}

} // verus!

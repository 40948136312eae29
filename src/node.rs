use vstd::prelude::*;
use crate::text::{replace_char, replace_char_exec, lemma_replace_absent, lemma_replace_excludes};

verus! {

/// The text that stands for a slash in a title.
pub open spec fn slash_substitute() -> Seq<char> {
    seq![' ', 'o', 'v', 'e', 'r', ' ']
}

/// `s` with its double quotes removed.
pub open spec fn strip_quotes(s: Seq<char>) -> Seq<char> {
    replace_char(s, '"', Seq::empty())
}

/// A title made safe for a file name: quotes removed, then each slash
/// written as " over ".
pub open spec fn clean_title(s: Seq<char>) -> Seq<char> {
    replace_char(strip_quotes(s), '/', slash_substitute())
}

/// A note record as the mathematics sees it.
pub struct NodeModel {
    pub id: Seq<char>,
    pub file: Seq<char>,
    pub level: i32,
    pub title: Seq<char>,
}

/// The record after sanitization.
pub open spec fn clean_model(m: NodeModel) -> NodeModel {
    NodeModel {
        id: strip_quotes(m.id),
        file: strip_quotes(m.file),
        level: m.level,
        title: clean_title(m.title),
    }
}

/// One knowledge-graph entry: its stable id, the file that holds it, its
/// depth in that file (0 for a whole file) and its display title.
#[derive(Clone, Debug)]
pub struct Node {
    pub id: String,
    pub file: String,
    pub level: i32,
    pub title: String,
}

impl View for Node {
    type V = NodeModel;

    open spec fn view(&self) -> NodeModel {
        NodeModel { id: self.id@, file: self.file@, level: self.level, title: self.title@ }
    }
}

impl Node {
    pub fn new(id: String, file: String, level: i32, title: String) -> (n: Node)
        ensures
            n.id == id,
            n.file == file,
            n.level == level,
            n.title == title,
    {
        Node { id, file, level, title }
    }

    /// A copy of the record.
    pub fn duplicate(&self) -> (r: Node)
        ensures
            r@ == self@,
    {
        Node {
            id: self.id.clone(),
            file: self.file.clone(),
            level: self.level,
            title: self.title.clone(),
        }
    }

    /// Sanitizes the record in place: quotes go from title, file and id, and
    /// each slash of the title becomes " over ".
    pub fn cleanup(&mut self)
        ensures
            final(self)@ == clean_model(old(self)@),
    {
        let t = replace_char_exec(self.title.as_str(), '"', "");
        proof {
            reveal_strlit("");
        }
        self.title = replace_char_exec(t.as_str(), '/', " over ");
        proof {
            reveal_strlit(" over ");
            assert(" over "@ =~= slash_substitute());
        }
        self.file = replace_char_exec(self.file.as_str(), '"', "");
        self.id = replace_char_exec(self.id.as_str(), '"', "");
        proof {
            assert(""@ =~= Seq::<char>::empty());
        }
    }
}

/// Removing quotes twice removes no more than removing them once.
pub proof fn lemma_strip_quotes_idempotent(s: Seq<char>)
    ensures
        strip_quotes(strip_quotes(s)) == strip_quotes(s),
{
    lemma_replace_excludes(s, '"', Seq::empty(), '"');
    lemma_replace_absent(strip_quotes(s), '"', Seq::empty());
}

/// Cleaning a title that was already cleaned leaves it unchanged.
pub proof fn lemma_clean_title_idempotent(s: Seq<char>)
    ensures
        clean_title(clean_title(s)) == clean_title(s),
{
    let q = strip_quotes(s);
    let t = clean_title(s);
    assert(!slash_substitute().contains('"')) by {
        assert forall|k: int| 0 <= k < slash_substitute().len() implies slash_substitute()[k]
            != '"' by {}
    }
    assert(!slash_substitute().contains('/')) by {
        assert forall|k: int| 0 <= k < slash_substitute().len() implies slash_substitute()[k]
            != '/' by {}
    }
    lemma_replace_excludes(s, '"', Seq::empty(), '"');
    lemma_replace_excludes(q, '/', slash_substitute(), '"');
    lemma_replace_excludes(q, '/', slash_substitute(), '/');
    lemma_replace_absent(t, '"', Seq::empty());
    lemma_replace_absent(t, '/', slash_substitute());
}

/// Sanitizing a record a second time changes nothing.
pub proof fn lemma_cleanup_idempotent(m: NodeModel)
    ensures
        clean_model(clean_model(m)) == clean_model(m),
{
    lemma_strip_quotes_idempotent(m.id);
    lemma_strip_quotes_idempotent(m.file);
    lemma_clean_title_idempotent(m.title);
}

} // verus!

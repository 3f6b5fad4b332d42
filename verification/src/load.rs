//! Line parsing and whole-configuration loading.

use vstd::prelude::*;

use crate::text::find_char;
use crate::text::find_from;
use crate::text::lemma_find_from;
use crate::text::lemma_split_segs_len;
use crate::text::split_dots;
use crate::text::split_segs;
use crate::text::str_views;
use crate::text::trim;
use crate::text::trim_spec;
use crate::tree::insert_model;
use crate::tree::insert_nested_value;
use crate::tree::lemma_insert_preserves_wf;
use crate::tree::wf_entries;
use crate::tree::wf_value;
use crate::tree::ConfigTree;
use crate::tree::ConfigValue;
use crate::tree::PathConflict;
use crate::tree::ValueModel;
use crate::value::infer_model;
use crate::value::infer_value;

verus! {

/// The parse of one raw line: nothing for a blank line, a comment or a line
/// without `=`; otherwise the key path (the trimmed key split on `.`) and the
/// classified trimmed value.
pub open spec fn line_model(line: Seq<char>) -> Option<(Seq<Seq<char>>, ValueModel)> {
    let t = trim_spec(line);
    if t.len() == 0 || t[0] == '#' {
        None
    } else {
        match find_from(t, '=', 0) {
            None => None,
            Some(j) => Some(
                (split_segs(trim_spec(t.take(j))), infer_model(trim_spec(t.skip(j + 1)))),
            ),
        }
    }
}

/// Parses one line: trims it, skips blanks, comments and lines without `=`,
/// splits the rest on the first `=`, trims both sides, splits the key on `.`
/// and classifies the value.
pub fn parse_line(line: &str) -> (r: Option<(Vec<String>, ConfigValue)>)
    ensures
        match r {
            Some(p) => line_model(line@) == Some((str_views(p.0@), p.1@)) && p.0@.len() >= 1,
            None => line_model(line@) is None,
        },
{
    let t = trim(line);
    let n = t.unicode_len();
    if n == 0 {
        return None;
    }
    if t.get_char(0) == '#' {
        return None;
    }
    match find_char(t, '=') {
        None => None,
        Some(j) => {
            proof {
                lemma_find_from(t@, '=', 0);
            }
            let raw_key = t.substring_char(0, j);
            let raw_val = t.substring_char(j + 1, n);
            let keys = split_dots(trim(raw_key));
            let value = infer_value(trim(raw_val));
            proof {
                assert(raw_key@ =~= t@.take(j as int));
            }
            Some((keys, value))
        },
    }
}

/// The tree described by a sequence of raw lines, processed in order;
/// nothing on a structural conflict.
pub open spec fn load_model(lines: Seq<Seq<char>>) -> Option<Seq<(Seq<char>, ValueModel)>>
    decreases lines.len(),
{
    if lines.len() == 0 {
        Some(Seq::empty())
    } else {
        match load_model(lines.drop_last()) {
            None => None,
            Some(es) => match line_model(lines.last()) {
                None => Some(es),
                Some(p) => insert_model(es, p.0, p.1),
            },
        }
    }
}

/// Once a prefix of the lines conflicts, the whole sequence does.
proof fn lemma_load_prefix_none(lines: Seq<Seq<char>>, m: int)
    requires
        0 <= m <= lines.len(),
        load_model(lines.take(m)) is None,
    ensures
        load_model(lines) is None,
    decreases lines.len() - m,
{
    if m < lines.len() {
        assert(lines.take(m + 1).drop_last() =~= lines.take(m));
        assert(lines.take(m + 1).last() == lines[m]);
        lemma_load_prefix_none(lines, m + 1);
    } else {
        assert(lines.take(m) =~= lines);
    }
}

/// Builds the configuration tree described by the given raw lines, one line
/// per element, in order. Fails exactly when some line's insertion meets a
/// structural conflict: an earlier path segment already naming a leaf.
#[verifier::loop_isolation(false)]
pub fn load_config(lines: &Vec<String>) -> (r: Result<ConfigTree, PathConflict>)
    ensures
        match r {
            Ok(t) => load_model(str_views(lines@)) == Some(t@) && wf_entries(t@),
            Err(_) => load_model(str_views(lines@)) is None,
        },
{
    let ghost gl = str_views(lines@);
    let mut tree = ConfigTree::new();
    let n = lines.len();
    let mut i: usize = 0;
    proof {
        assert(gl.take(0) =~= Seq::<Seq<char>>::empty());
    }
    while i < n
        invariant
            i <= n,
            n == lines@.len(),
            load_model(gl.take(i as int)) == Some(tree@),
        decreases n - i,
    {
        proof {
            assert(gl.take(i as int + 1).drop_last() =~= gl.take(i as int));
            assert(gl.take(i as int + 1).last() == lines@[i as int]@);
        }
        match parse_line(lines[i].as_str()) {
            None => {},
            Some(kv) => {
                let (keys, value) = kv;
                match insert_nested_value(&mut tree, keys.as_slice(), value) {
                    Ok(_) => {},
                    Err(e) => {
                        proof {
                            assert(load_model(gl.take(i as int + 1)) is None);
                            lemma_load_prefix_none(gl, i as int + 1);
                        }
                        return Err(e);
                    },
                }
            },
        }
        i += 1;
    }
    proof {
        assert(gl.take(n as int) =~= gl);
        lemma_loaded_tree_wf(gl);
    }
    Ok(tree)
}

/// Law: loading is a function of the lines alone; loading the same lines
/// twice yields structurally equal trees.
pub proof fn lemma_load_deterministic(a: Seq<Seq<char>>, b: Seq<Seq<char>>)
    requires
        a == b,
    ensures
        load_model(a) == load_model(b),
{
}

/// Law: lines that are blank or comments after trimming load to the empty
/// tree.
pub proof fn lemma_comments_and_blanks_load_empty(lines: Seq<Seq<char>>)
    requires
        forall|i: int|
            0 <= i < lines.len() ==> trim_spec(#[trigger] lines[i]).len() == 0 || trim_spec(
                lines[i],
            )[0] == '#',
    ensures
        load_model(lines) == Some(Seq::<(Seq<char>, ValueModel)>::empty()),
    decreases lines.len(),
{
    if lines.len() > 0 {
        assert(forall|i: int|
            0 <= i < lines.drop_last().len() ==> #[trigger] lines.drop_last()[i] == lines[i]);
        lemma_comments_and_blanks_load_empty(lines.drop_last());
    }
}

/// Law: a malformed line, one whose trimmed text contains no `=`, is skipped:
/// the surrounding lines load exactly as if it were absent.
pub proof fn lemma_malformed_line_skipped(pre: Seq<Seq<char>>, line: Seq<char>, post: Seq<Seq<char>>)
    requires
        find_from(trim_spec(line), '=', 0) is None,
    ensures
        load_model(pre + seq![line] + post) == load_model(pre + post),
    decreases post.len(),
{
    assert(line_model(line) is None);
    if post.len() == 0 {
        assert((pre + seq![line] + post).drop_last() =~= pre);
        assert((pre + seq![line] + post).last() == line);
        assert(pre + post =~= pre);
    } else {
        assert((pre + seq![line] + post).drop_last() =~= pre + seq![line] + post.drop_last());
        assert((pre + seq![line] + post).last() == post.last());
        assert((pre + post).drop_last() =~= pre + post.drop_last());
        assert((pre + post).last() == post.last());
        lemma_malformed_line_skipped(pre, line, post.drop_last());
    }
}

/// Law: every tree that a load yields is well-formed: its keys are unique at
/// every level.
pub proof fn lemma_loaded_tree_wf(lines: Seq<Seq<char>>)
    ensures
        load_model(lines) matches Some(es) ==> wf_entries(es),
    decreases lines.len(),
{
    if lines.len() > 0 {
        lemma_loaded_tree_wf(lines.drop_last());
        match load_model(lines.drop_last()) {
            Some(es) => match line_model(lines.last()) {
                Some(p) => {
                    assert(wf_value(p.1));
                    lemma_split_segs_len(trim_spec(trim_spec(lines.last()).take(
                        find_from(trim_spec(lines.last()), '=', 0)->0,
                    )));
                    lemma_insert_preserves_wf(es, p.0, p.1);
                },
                None => {},
            },
            None => {},
        }
    }
}

} // verus!

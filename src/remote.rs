//! The template service's side: where to ask, and how to read what it answers.
use vstd::prelude::*;

use crate::gitignore::Gitignore;
use crate::text::{contains_text, free_of, occurs_in, split, split_on};

verus! {

/// The address of `path` on the template service.
pub open spec fn api_url(path: Seq<char>) -> Seq<char> {
    "https://www.gitignore.io/api/"@ + path
}

/// The list answer with quotes dropped and each newline turned into a comma.
pub open spec fn list_text(s: Seq<char>) -> Seq<char>
    decreases s.len(),
{
    if s.len() == 0 {
        Seq::empty()
    } else {
        let head = list_text(s.drop_last());
        if s.last() == '"' {
            head
        } else if s.last() == '\n' {
            head.push(',')
        } else {
            head.push(s.last())
        }
    }
}

/// The languages named by a list answer: its comma-separated names, with
/// quotes removed and empty names left out.
pub open spec fn parse_list(s: Seq<char>) -> Seq<Seq<char>> {
    split(list_text(s), ',').filter(|p: Seq<char>| p.len() > 0)
}

/// The marker by which the service says that it does not know a language.
pub open spec fn unknown_marker() -> Seq<char> {
    "undefined"@
}

/// The address that lists the supported languages.
pub fn list_url() -> (r: String)
    ensures
        r@ == api_url("list"@),
{
    let mut url = String::from_str("https://www.gitignore.io/api/");
    url.append("list");
    url
}

/// The address of the template for `lang`.
pub fn lang_url(lang: &str) -> (r: String)
    ensures
        r@ == api_url(lang@),
{
    let mut url = String::from_str("https://www.gitignore.io/api/");
    url.append(lang);
    url
}

/// `list_text` keeps no newline.
proof fn lemma_list_text_one_line(s: Seq<char>)
    ensures
        free_of(list_text(s), '\n'),
    decreases s.len(),
{
    if s.len() > 0 {
        lemma_list_text_one_line(s.drop_last());
    }
}

/// Reads the answer of the list address into language names.
pub fn parse_lang_list(contents: &str) -> (r: Vec<String>)
    ensures
        r@.map_values(|p: String| p@) == parse_list(contents@),
        forall|k: int| 0 <= k < r@.len() ==> free_of(#[trigger] r@[k]@, '\n'),
{
    let n = contents.unicode_len();
    let mut flat = String::new();
    let mut i: usize = 0;
    while i < n
        invariant
            n == contents@.len(),
            i <= n,
            flat@ == list_text(contents@.subrange(0, i as int)),
        decreases n - i,
    {
        let c = contents.get_char(i);
        proof {
            assert(contents@.subrange(0, i + 1).drop_last() =~= contents@.subrange(0, i as int));
            reveal_strlit(",");
        }
        if c == '\n' {
            flat.append(",");
        } else if c != '"' {
            flat.append(contents.substring_char(i, i + 1));
            proof {
                assert(contents@.subrange(i as int, i + 1) =~= seq![c]);
            }
        }
        i = i + 1;
    }
    proof {
        assert(contents@.subrange(0, n as int) =~= contents@);
        lemma_list_text_one_line(contents@);
        crate::text::lemma_split_shape(flat@, ',', '\n');
    }
    let parts = split_on(flat.as_str(), ',');
    let ghost pieces = parts@.map_values(|p: String| p@);
    let ghost keep = |p: Seq<char>| p.len() > 0;
    let mut names: Vec<String> = Vec::new();
    let mut j: usize = 0;
    while j < parts.len()
        invariant
            j <= parts@.len(),
            pieces == parts@.map_values(|p: String| p@),
            pieces == split(flat@, ','),
            keep == (|p: Seq<char>| p.len() > 0),
            forall|k: int| 0 <= k < pieces.len() ==> free_of(#[trigger] pieces[k], '\n'),
            names@.map_values(|p: String| p@) == pieces.subrange(0, j as int).filter(keep),
            forall|k: int| 0 <= k < names@.len() ==> free_of(#[trigger] names@[k]@, '\n'),
        decreases parts@.len() - j,
    {
        proof {
            assert(pieces.subrange(0, j + 1).drop_last() =~= pieces.subrange(0, j as int));
            reveal(Seq::filter);
        }
        let ghost before = names@.map_values(|p: String| p@);
        if parts[j].unicode_len() > 0 {
            names.push(parts[j].clone());
            proof {
                assert(names@.map_values(|p: String| p@) =~= before.push(pieces[j as int]));
            }
        }
        j = j + 1;
    }
    proof {
        assert(pieces.subrange(0, j as int) =~= pieces);
    }
    names
}

/// Reads the answer for one language: nothing where the service marks the
/// language as unknown, otherwise the document made of its lines.
pub fn read_ignore(contents: &str) -> (r: Option<Gitignore>)
    ensures
        r is None <==> occurs_in(unknown_marker(), contents@),
        r matches Some(g) ==> g@ == split(contents@, '\n') && g.wf(),
{
    if contains_text(contents, "undefined") {
        None
    } else {
        Some(Gitignore::from_string(contents))
    }
}

} // verus!

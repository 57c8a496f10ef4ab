//! The client: answers from the cache where it can, and otherwise says what
//! to fetch and takes in what was fetched.
use vstd::prelude::*;

use crate::cache::Cache;
use crate::gitignore::Gitignore;
use crate::remote::{api_url, lang_url, parse_lang_list, parse_list, read_ignore, unknown_marker};
use crate::text::{occurs_in, split, split_on};

verus! {

/// The outcome of asking for a language's document.
#[derive(Debug)]
pub enum Lookup {
    /// The cache holds the document.
    Cached(Gitignore),
    /// The cache does not: the template must be fetched from this address.
    Fetch(String),
}

/// Bliss, gitignore client.
pub struct Bliss {
    /// Cache of gitignore info.
    pub cache: Cache,
}

impl Bliss {
    /// The client's cache is well formed.
    pub open spec fn wf(&self) -> bool {
        self.cache.wf()
    }

    /// The language list the client answers with, where it has one.
    pub open spec fn listed(&self) -> Option<Seq<Seq<char>>> {
        if self.cache.langs().len() > 0 {
            Some(self.cache.langs())
        } else {
            None
        }
    }

    /// Whether the client counts `lang` as supported.
    pub open spec fn supports(&self, lang: Seq<char>) -> bool {
        self.cache.langs().contains(lang)
    }

    /// Creates a client over a cache.
    pub fn new(cache: Cache) -> (r: Bliss)
        ensures
            r.cache == cache,
    {
        Bliss { cache }
    }

    /// The cached list of supported languages; nothing where that list is
    /// empty, and the list must then be fetched from the service.
    pub fn supported_langs(&self) -> (r: Option<Vec<String>>)
        ensures
            r is None <==> self.listed() is None,
            r matches Some(v) ==> self.listed() == Some(v@.map_values(|s: String| s@)),
    {
        let langs = self.cache.supported_langs();
        if langs.len() == 0 {
            None
        } else {
            Some(langs)
        }
    }

    /// Reads the service's list answer into language names.
    pub fn get_lang_list(contents: &str) -> (r: Vec<String>)
        ensures
            r@.map_values(|s: String| s@) == parse_list(contents@),
    {
        parse_lang_list(contents)
    }

    /// Takes in a fetched list answer: it replaces the cached list, and the
    /// new list is returned.
    pub fn refresh_langs(&mut self, contents: &str) -> (r: Vec<String>)
        requires
            old(self).wf(),
        ensures
            final(self).wf(),
            r@.map_values(|s: String| s@) == parse_list(contents@),
            final(self).cache.langs() == parse_list(contents@),
            final(self).cache.docs() == old(self).cache.docs(),
    {
        self.cache.set_supported_langs(parse_lang_list(contents));
        self.cache.supported_langs()
    }

    /// Whether `lang` is in the list of supported languages, matched exactly.
    pub fn is_supported(&self, lang: &str) -> (r: bool)
        ensures
            r == self.supports(lang@),
    {
        self.cache.lists(lang)
    }

    /// The document for `lang` where the cache holds it; otherwise the
    /// address to fetch it from.
    pub fn get_lang_gitignore(&self, lang: &str) -> (r: Lookup)
        requires
            self.wf(),
        ensures
            self.cache.docs().contains_key(lang@) ==> (r matches Lookup::Cached(g) && g@
                == self.cache.docs()[lang@]),
            !self.cache.docs().contains_key(lang@) ==> (r matches Lookup::Fetch(url) && url@
                == api_url(lang@)),
    {
        match self.cache.lookup(lang) {
            Some(g) => Lookup::Cached(g),
            None => Lookup::Fetch(lang_url(lang)),
        }
    }

    /// Takes in the service's answer for `lang`. Where it marks the language
    /// as unknown, nothing is returned and the cache is left as it was;
    /// otherwise the document is cached and returned.
    pub fn accept_gitignore(&mut self, lang: &str, contents: &str) -> (r: Option<Gitignore>)
        requires
            old(self).wf(),
        ensures
            final(self).wf(),
            final(self).cache.langs() == old(self).cache.langs(),
            occurs_in(unknown_marker(), contents@) ==> r is None && final(self).cache.docs()
                == old(self).cache.docs(),
            !occurs_in(unknown_marker(), contents@) ==> (r matches Some(g) && g@ == split(
                contents@,
                '\n',
            ) && final(self).cache.docs() == old(self).cache.docs().insert(lang@, g@)),
    {
        match read_ignore(contents) {
            None => None,
            Some(g) => {
                let kept = g.duplicate();
                self.cache.insert(lang, kept);
                Some(g)
            },
        }
    }
}

/// `s` with its spaces removed.
pub open spec fn without_spaces(s: Seq<char>) -> Seq<char>
    decreases s.len(),
{
    if s.len() == 0 {
        Seq::empty()
    } else if s.last() == ' ' {
        without_spaces(s.drop_last())
    } else {
        without_spaces(s.drop_last()).push(s.last())
    }
}

/// The languages named on a command line: spaces are ignored and commas
/// separate the names.
pub fn requested_langs(arg: &str) -> (r: Vec<String>)
    ensures
        r@.map_values(|s: String| s@) == split(without_spaces(arg@), ','),
{
    let n = arg.unicode_len();
    let mut packed = String::new();
    let mut i: usize = 0;
    while i < n
        invariant
            n == arg@.len(),
            i <= n,
            packed@ == without_spaces(arg@.subrange(0, i as int)),
        decreases n - i,
    {
        proof {
            assert(arg@.subrange(0, i + 1).drop_last() =~= arg@.subrange(0, i as int));
        }
        if arg.get_char(i) != ' ' {
            packed.append(arg.substring_char(i, i + 1));
            proof {
                assert(arg@.subrange(i as int, i + 1) =~= seq![arg@[i as int]]);
            }
        }
        i = i + 1;
    }
    proof {
        assert(arg@.subrange(0, n as int) =~= arg@);
    }
    split_on(packed.as_str(), ',')
}

/// A language is supported exactly when it is in the list the client
/// answers with.
pub proof fn lemma_supported_iff_listed(b: Bliss, lang: Seq<char>)
    ensures
        b.supports(lang) <==> (b.listed() matches Some(langs) && langs.contains(lang)),
{
}

} // verus!

//! The cache: the language list and the ignore documents fetched so far,
//! and the files that hold them between runs.
use vstd::prelude::*;

use crate::gitignore::{is_document, Gitignore};
use crate::remote::{parse_lang_list, parse_list};
use crate::text::{
    file_stem, free_of, join, join_lines, lemma_split_append_free, lemma_split_free, lemma_split_join,
    split, split_on, stem,
};

verus! {

/// The documents that `entries` hold, a later entry replacing an earlier one
/// of the same language.
pub open spec fn docs_of(entries: Seq<(Seq<char>, Seq<Seq<char>>)>) -> Map<
    Seq<char>,
    Seq<Seq<char>>,
>
    decreases entries.len(),
{
    if entries.len() == 0 {
        Map::empty()
    } else {
        docs_of(entries.drop_last()).insert(entries.last().0, entries.last().1)
    }
}

/// No language appears in two entries.
pub open spec fn keys_unique(entries: Seq<(Seq<char>, Seq<Seq<char>>)>) -> bool {
    forall|i: int, j: int|
        0 <= i < entries.len() && 0 <= j < entries.len() && #[trigger] entries[i].0
            == #[trigger] entries[j].0 ==> i == j
}

/// The name of the file that holds a language's document.
pub open spec fn file_name(lang: Seq<char>) -> Seq<char> {
    lang + ".gitignore"@
}

/// The ignore files written for `entries`: a name and a text for each, in order.
pub open spec fn ignore_files(entries: Seq<(Seq<char>, Seq<Seq<char>>)>) -> Seq<
    (Seq<char>, Seq<char>),
> {
    entries.map_values(|e: (Seq<char>, Seq<Seq<char>>)| (file_name(e.0), join(e.1, '\n')))
}

/// The documents read back from ignore files: each file's stem names the
/// language, its lines are the document; a later file replaces an earlier one.
pub open spec fn load_docs(files: Seq<(Seq<char>, Seq<char>)>) -> Map<Seq<char>, Seq<Seq<char>>>
    decreases files.len(),
{
    if files.len() == 0 {
        Map::empty()
    } else {
        load_docs(files.drop_last()).insert(stem(files.last().0), split(files.last().1, '\n'))
    }
}

/// The text of a file, as a pair of name and contents.
pub open spec fn file_view(f: (String, String)) -> (Seq<char>, Seq<char>) {
    (f.0@, f.1@)
}

/// What a cache writes out: the language list file and the ignore files.
pub struct CacheFiles {
    /// Text of the language list file: one language per line.
    pub langs: String,
    /// Each ignore file, as its file name and its text.
    pub ignores: Vec<(String, String)>,
}

/// Cache of gitignore and language information.
pub struct Cache {
    /// Supported languages.
    supported_langs: Vec<String>,
    /// The gitignores held, one entry per language.
    gitignores: Vec<(String, Gitignore)>,
}

impl Cache {
    /// The list of supported languages.
    pub closed spec fn langs(&self) -> Seq<Seq<char>> {
        self.supported_langs@.map_values(|s: String| s@)
    }

    /// The documents held, by language, in the order they came in.
    pub closed spec fn entries(&self) -> Seq<(Seq<char>, Seq<Seq<char>>)> {
        self.gitignores@.map_values(|e: (String, Gitignore)| (e.0@, e.1@))
    }

    /// The documents held, by language.
    pub open spec fn docs(&self) -> Map<Seq<char>, Seq<Seq<char>>> {
        docs_of(self.entries())
    }

    /// The cache is well formed: no language name holds a newline, each
    /// language has one entry, and each entry is a document.
    pub open spec fn wf(&self) -> bool {
        &&& forall|k: int| 0 <= k < self.langs().len() ==> free_of(#[trigger] self.langs()[k], '\n')
        &&& keys_unique(self.entries())
        &&& forall|i: int| 0 <= i < self.entries().len() ==> is_document(#[trigger] self.entries()[i].1)
    }
}

/// With distinct languages, each entry's document is the one held for its language.
pub proof fn lemma_docs_lookup(entries: Seq<(Seq<char>, Seq<Seq<char>>)>, i: int)
    requires
        keys_unique(entries),
        0 <= i < entries.len(),
    ensures
        docs_of(entries).contains_key(entries[i].0),
        docs_of(entries)[entries[i].0] == entries[i].1,
    decreases entries.len(),
{
    let init = entries.drop_last();
    if i < entries.len() - 1 {
        assert(keys_unique(init)) by {
            assert forall|a: int, b: int|
                0 <= a < init.len() && 0 <= b < init.len() && #[trigger] init[a].0
                    == #[trigger] init[b].0 implies a == b by {
                assert(init[a] == entries[a] && init[b] == entries[b]);
            }
        }
        lemma_docs_lookup(init, i);
        assert(init[i] == entries[i]);
        assert(entries.last().0 != entries[i].0);
    }
}

/// A language that no entry names has no document.
pub proof fn lemma_docs_absent(entries: Seq<(Seq<char>, Seq<Seq<char>>)>, lang: Seq<char>)
    requires
        forall|i: int| 0 <= i < entries.len() ==> (#[trigger] entries[i]).0 != lang,
    ensures
        !docs_of(entries).contains_key(lang),
    decreases entries.len(),
{
    if entries.len() > 0 {
        let init = entries.drop_last();
        assert forall|i: int| 0 <= i < init.len() implies (#[trigger] init[i]).0 != lang by {
            assert(init[i] == entries[i]);
        }
        lemma_docs_absent(init, lang);
        assert(entries[entries.len() - 1].0 != lang);
    }
}

/// Replacing the entry of a language replaces its document.
pub proof fn lemma_docs_update(
    entries: Seq<(Seq<char>, Seq<Seq<char>>)>,
    i: int,
    doc: Seq<Seq<char>>,
)
    requires
        keys_unique(entries),
        0 <= i < entries.len(),
    ensures
        docs_of(entries.update(i, (entries[i].0, doc))) == docs_of(entries).insert(
            entries[i].0,
            doc,
        ),
    decreases entries.len(),
{
    let k = entries[i].0;
    let updated = entries.update(i, (k, doc));
    let init = entries.drop_last();
    if i == entries.len() - 1 {
        assert(updated.drop_last() =~= init);
        assert(docs_of(updated) =~= docs_of(entries).insert(k, doc));
    } else {
        assert(keys_unique(init)) by {
            assert forall|a: int, b: int|
                0 <= a < init.len() && 0 <= b < init.len() && #[trigger] init[a].0
                    == #[trigger] init[b].0 implies a == b by {
                assert(init[a] == entries[a] && init[b] == entries[b]);
            }
        }
        lemma_docs_update(init, i, doc);
        assert(updated.drop_last() =~= init.update(i, (k, doc)));
        assert(init[i] == entries[i]);
        assert(entries.last().0 != k);
        assert(docs_of(updated) =~= docs_of(entries).insert(k, doc));
    }
}

impl Cache {
    /// The index of the entry for `lang`, if there is one.
    fn find(&self, lang: &String) -> (r: Option<usize>)
        ensures
            match r {
                Some(i) => i < self.entries().len() && self.entries()[i as int].0 == lang@,
                None => forall|i: int|
                    0 <= i < self.entries().len() ==> (#[trigger] self.entries()[i]).0 != lang@,
            },
    {
        let mut i: usize = 0;
        while i < self.gitignores.len()
            invariant
                i <= self.gitignores@.len(),
                self.entries().len() == self.gitignores@.len(),
                forall|j: int| 0 <= j < i ==> (#[trigger] self.entries()[j]).0 != lang@,
            decreases self.gitignores@.len() - i,
        {
            if self.gitignores[i].0 == *lang {
                return Some(i);
            }
            i = i + 1;
        }
        None
    }

    /// The document held for `lang`, if any.
    pub fn lookup(&self, lang: &str) -> (r: Option<Gitignore>)
        requires
            self.wf(),
        ensures
            r is Some <==> self.docs().contains_key(lang@),
            r matches Some(g) ==> g@ == self.docs()[lang@] && g.wf(),
    {
        let key = lang.to_owned();
        match self.find(&key) {
            Some(i) => {
                proof {
                    lemma_docs_lookup(self.entries(), i as int);
                    assert(is_document(self.entries()[i as int].1));
                }
                Some(self.gitignores[i].1.duplicate())
            },
            None => {
                proof {
                    lemma_docs_absent(self.entries(), lang@);
                }
                None
            },
        }
    }

    /// Holds `gitignore` as the document of `lang`, replacing any earlier one.
    pub fn insert(&mut self, lang: &str, gitignore: Gitignore)
        requires
            old(self).wf(),
            gitignore.wf(),
        ensures
            final(self).wf(),
            final(self).langs() == old(self).langs(),
            final(self).docs() == old(self).docs().insert(lang@, gitignore@),
    {
        let key = lang.to_owned();
        let ghost doc = gitignore@;
        match self.find(&key) {
            Some(i) => {
                proof {
                    lemma_docs_update(self.entries(), i as int, doc);
                }
                self.gitignores.set(i, (key, gitignore));
                proof {
                    assert(self.entries() =~= old(self).entries().update(
                        i as int,
                        (lang@, doc),
                    ));
                }
            },
            None => {
                self.gitignores.push((key, gitignore));
                proof {
                    assert(self.entries() =~= old(self).entries().push((lang@, doc)));
                    assert(self.entries().drop_last() =~= old(self).entries());
                }
            },
        }
        proof {
            assert(self.langs() =~= old(self).langs());
        }
    }
}

/// A language without a dot is the stem of its file's name.
pub proof fn lemma_stem_of_file_name(lang: Seq<char>)
    requires
        free_of(lang, '.'),
    ensures
        stem(file_name(lang)) == lang,
{
    reveal_strlit(".gitignore");
    let dotted = lang.push('.');
    let ext = "gitignore"@;
    reveal_strlit("gitignore");
    assert(file_name(lang) =~= dotted + ext);
    lemma_split_free(lang, '.');
    assert(dotted.drop_last() =~= lang);
    assert(split(dotted, '.') == seq![lang].push(Seq::<char>::empty()));
    assert(free_of(ext, '.'));
    lemma_split_append_free(dotted, ext, '.');
}

/// Reading back the ignore files written for `entries` gives their documents.
pub proof fn lemma_load_saved(entries: Seq<(Seq<char>, Seq<Seq<char>>)>)
    requires
        forall|i: int| 0 <= i < entries.len() ==> free_of(#[trigger] entries[i].0, '.'),
        forall|i: int| 0 <= i < entries.len() ==> is_document(#[trigger] entries[i].1),
    ensures
        load_docs(ignore_files(entries)) == docs_of(entries),
    decreases entries.len(),
{
    if entries.len() > 0 {
        let init = entries.drop_last();
        let last = entries.last();
        assert forall|i: int| 0 <= i < init.len() implies free_of(#[trigger] init[i].0, '.')
            && is_document(init[i].1) by {
            assert(init[i] == entries[i]);
        }
        lemma_load_saved(init);
        assert(ignore_files(entries).drop_last() =~= ignore_files(init));
        assert(free_of(entries[entries.len() - 1].0, '.'));
        assert(is_document(entries[entries.len() - 1].1));
        lemma_stem_of_file_name(last.0);
        lemma_split_join(last.1, '\n');
    }
}

/// Writing a cache out and reading the files back gives the same language
/// list and the same documents, for every language name without a dot and
/// every non-empty list.
pub proof fn lemma_save_load_round_trip(c: Cache)
    requires
        c.wf(),
        c.langs().len() >= 1,
        forall|lang: Seq<char>| #[trigger] c.docs().contains_key(lang) ==> free_of(lang, '.'),
    ensures
        split(join(c.langs(), '\n'), '\n') == c.langs(),
        load_docs(ignore_files(c.entries())) == c.docs(),
{
    lemma_split_join(c.langs(), '\n');
    assert forall|i: int| 0 <= i < c.entries().len() implies free_of(
        #[trigger] c.entries()[i].0,
        '.',
    ) by {
        lemma_docs_lookup(c.entries(), i);
        assert(c.docs().contains_key(c.entries()[i].0));
    }
    lemma_load_saved(c.entries());
}

/// Writing a cache out twice with no change between gives the same files:
/// what is written depends on the cache's contents alone.
pub proof fn lemma_save_twice_identical(c: Cache, first: CacheFiles, second: CacheFiles)
    requires
        first.langs@ == join(c.langs(), '\n'),
        first.ignores@.map_values(|f: (String, String)| file_view(f)) == ignore_files(c.entries()),
        second.langs@ == join(c.langs(), '\n'),
        second.ignores@.map_values(|f: (String, String)| file_view(f)) == ignore_files(c.entries()),
    ensures
        first.langs@ == second.langs@,
        first.ignores@.map_values(|f: (String, String)| file_view(f)) == second.ignores@.map_values(
            |f: (String, String)| file_view(f),
        ),
{
}

impl Cache {
    /// Creates a cache from the service's list answer, holding no documents.
    pub fn new(contents: &str) -> (r: Cache)
        ensures
            r.wf(),
            r.langs() == parse_list(contents@),
            r.docs() == Map::<Seq<char>, Seq<Seq<char>>>::empty(),
    {
        let cache = Cache { supported_langs: parse_lang_list(contents), gitignores: Vec::new() };
        proof {
            assert(cache.entries() =~= Seq::empty());
        }
        cache
    }

    /// The list of supported languages.
    pub fn supported_langs(&self) -> (r: Vec<String>)
        ensures
            r@.map_values(|s: String| s@) == self.langs(),
    {
        let mut out: Vec<String> = Vec::new();
        let mut i: usize = 0;
        while i < self.supported_langs.len()
            invariant
                i <= self.supported_langs@.len(),
                self.langs().len() == self.supported_langs@.len(),
                out@.map_values(|s: String| s@) == self.langs().subrange(0, i as int),
            decreases self.supported_langs@.len() - i,
        {
            let ghost before = out@.map_values(|s: String| s@);
            out.push(self.supported_langs[i].clone());
            proof {
                assert(out@.map_values(|s: String| s@) =~= before.push(self.langs()[i as int]));
                assert(self.langs().subrange(0, i + 1) =~= self.langs().subrange(0, i as int).push(
                    self.langs()[i as int],
                ));
            }
            i = i + 1;
        }
        proof {
            assert(self.langs().subrange(0, i as int) =~= self.langs());
        }
        out
    }

    /// Replaces the list of supported languages wholesale.
    pub fn set_supported_langs(&mut self, langs: Vec<String>)
        requires
            old(self).wf(),
            forall|k: int| 0 <= k < langs@.len() ==> free_of(#[trigger] langs@[k]@, '\n'),
        ensures
            final(self).wf(),
            final(self).langs() == langs@.map_values(|s: String| s@),
            final(self).docs() == old(self).docs(),
    {
        self.supported_langs = langs;
        proof {
            assert(self.entries() =~= old(self).entries());
        }
    }

    /// Whether `lang` is in the list of supported languages, matched exactly.
    pub fn lists(&self, lang: &str) -> (r: bool)
        ensures
            r == self.langs().contains(lang@),
    {
        let key = lang.to_owned();
        let mut i: usize = 0;
        while i < self.supported_langs.len()
            invariant
                i <= self.supported_langs@.len(),
                self.langs().len() == self.supported_langs@.len(),
                key@ == lang@,
                forall|j: int| 0 <= j < i ==> self.langs()[j] != lang@,
            decreases self.supported_langs@.len() - i,
        {
            if self.supported_langs[i] == key {
                proof {
                    assert(self.langs()[i as int] == lang@);
                }
                return true;
            }
            i = i + 1;
        }
        false
    }

    /// The languages that documents are held for, in the order they came in.
    pub fn cached_langs(&self) -> (r: Vec<String>)
        requires
            self.wf(),
        ensures
            forall|lang: Seq<char>|
                self.docs().contains_key(lang) <==> r@.map_values(|s: String| s@).contains(lang),
    {
        let mut out: Vec<String> = Vec::new();
        let mut i: usize = 0;
        while i < self.gitignores.len()
            invariant
                i <= self.gitignores@.len(),
                self.entries().len() == self.gitignores@.len(),
                out@.len() == i,
                forall|j: int| 0 <= j < i ==> (#[trigger] out@[j])@ == self.entries()[j].0,
            decreases self.gitignores@.len() - i,
        {
            out.push(self.gitignores[i].0.clone());
            i = i + 1;
        }
        proof {
            let names = out@.map_values(|s: String| s@);
            assert forall|lang: Seq<char>| self.docs().contains_key(lang) <==> names.contains(
                lang,
            ) by {
                if names.contains(lang) {
                    let j = choose|j: int| 0 <= j < names.len() && names[j] == lang;
                    lemma_docs_lookup(self.entries(), j);
                } else {
                    assert forall|j: int| 0 <= j < self.entries().len() implies (
                    #[trigger] self.entries()[j]).0 != lang by {
                        assert(names[j] == out@[j]@);
                    }
                    lemma_docs_absent(self.entries(), lang);
                }
            }
        }
        out
    }

    /// The files that hold this cache: the language list, one language per
    /// line, and for each language its document under `<language>.gitignore`.
    pub fn save(&self) -> (r: CacheFiles)
        ensures
            r.langs@ == join(self.langs(), '\n'),
            r.ignores@.map_values(|f: (String, String)| file_view(f)) == ignore_files(
                self.entries(),
            ),
    {
        let langs = join_lines(&self.supported_langs);
        let mut ignores: Vec<(String, String)> = Vec::new();
        let mut i: usize = 0;
        proof {
            reveal_strlit(".gitignore");
        }
        while i < self.gitignores.len()
            invariant
                i <= self.gitignores@.len(),
                self.entries().len() == self.gitignores@.len(),
                ignores@.map_values(|f: (String, String)| file_view(f)) == ignore_files(
                    self.entries(),
                ).subrange(0, i as int),
            decreases self.gitignores@.len() - i,
        {
            let mut name = self.gitignores[i].0.clone();
            name.append(".gitignore");
            let body = self.gitignores[i].1.text();
            let ghost before = ignores@.map_values(|f: (String, String)| file_view(f));
            ignores.push((name, body));
            proof {
                assert(ignores@.map_values(|f: (String, String)| file_view(f)) =~= before.push(
                    (name@, body@),
                ));
                assert(ignore_files(self.entries()).subrange(0, i + 1) =~= ignore_files(
                    self.entries(),
                ).subrange(0, i as int).push(ignore_files(self.entries())[i as int]));
            }
            i = i + 1;
        }
        proof {
            assert(ignore_files(self.entries()).subrange(0, i as int) =~= ignore_files(
                self.entries(),
            ));
        }
        CacheFiles { langs, ignores }
    }

    /// Reads a cache back from the text of its language list file and its
    /// ignore files, given as file name and text.
    pub fn from(langs: &str, ignores: &Vec<(String, String)>) -> (r: Cache)
        ensures
            r.wf(),
            r.langs() == split(langs@, '\n'),
            r.docs() == load_docs(ignores@.map_values(|f: (String, String)| file_view(f))),
    {
        let supported_langs = split_on(langs, '\n');
        proof {
            crate::text::lemma_split_shape(langs@, '\n', '\n');
        }
        let mut cache = Cache { supported_langs, gitignores: Vec::new() };
        let ghost files = ignores@.map_values(|f: (String, String)| file_view(f));
        proof {
            assert(cache.entries() =~= Seq::empty());
            assert(files.subrange(0, 0) =~= Seq::empty());
        }
        let mut i: usize = 0;
        while i < ignores.len()
            invariant
                i <= ignores@.len(),
                files == ignores@.map_values(|f: (String, String)| file_view(f)),
                cache.wf(),
                cache.langs() == split(langs@, '\n'),
                cache.docs() == load_docs(files.subrange(0, i as int)),
            decreases ignores@.len() - i,
        {
            let lang = file_stem(ignores[i].0.as_str());
            let doc = Gitignore::from_string(ignores[i].1.as_str());
            cache.insert(lang.as_str(), doc);
            proof {
                assert(files.subrange(0, i + 1).drop_last() =~= files.subrange(0, i as int));
            }
            i = i + 1;
        }
        proof {
            assert(files.subrange(0, i as int) =~= files);
        }
        cache
    }
}

} // verus!

//! Storage behind the operations: a trait over a keyed store of raw document
//! text, and an in-memory implementation of it, proved against the same
//! contracts that callers rely on.

use vstd::prelude::*;
use vstd::map::*;

use crate::text::{chars_of, eq_chars, string_of};

verus! {

/// One stored file: its name within the document directory, and its text.
pub struct SourceFile {
    pub name: String,
    pub text: String,
}

/// The mathematical view of a stored file.
pub struct FileView {
    pub name: Seq<char>,
    pub text: Seq<char>,
}

impl View for SourceFile {
    type V = FileView;

    open spec fn view(&self) -> FileView {
        FileView { name: self.name@, text: self.text@ }
    }
}

impl DeepView for SourceFile {
    type V = FileView;

    open spec fn deep_view(&self) -> FileView {
        self.view()
    }
}

/// A storage failure, with its description.
#[derive(Debug)]
pub struct RepoError {
    pub message: String,
}

/// How a returned list of files relates to the store: exactly the stored
/// pairs, each name once.
pub open spec fn files_listing(m: Map<Seq<char>, Seq<char>>, l: Seq<FileView>) -> bool {
    &&& forall|i: int| 0 <= i < l.len() ==> m.contains_pair(#[trigger] l[i].name, l[i].text)
    &&& forall|i: int, j: int| 0 <= i < j < l.len() ==> l[i].name != l[j].name
    &&& forall|k: Seq<char>|
        m.dom().contains(k) ==> exists|i: int| 0 <= i < l.len() && #[trigger] l[i].name == k
}

/// A keyed store of raw document text. The in-memory implementation below is
/// verified against these contracts; a filesystem-backed implementation can
/// live outside the library and is trusted to meet them.
pub trait AdrRepository: Sized {
    /// The stored files, name to text. The default is the empty store;
    /// a verified implementation overrides it with its own model.
    open spec fn files(&self) -> Map<Seq<char>, Seq<char>> {
        Map::<Seq<char>, Seq<char>>::empty()
    }

    /// Every stored file with its raw text, in some order, each name once.
    fn list_files(&self) -> (r: Result<Vec<SourceFile>, RepoError>)
        ensures
            r matches Ok(v) ==> files_listing(self.files(), v.deep_view()),
    ;

    /// The text stored under `path`.
    fn read_string(&self, path: &str) -> (r: Result<String, RepoError>)
        ensures
            r matches Ok(c) ==> self.files().contains_pair(path@, c@),
    ;

    /// Store `content` under `path`, replacing what was there.
    fn write_string(&mut self, path: &str, content: &str) -> (r: Result<(), RepoError>)
        ensures
            r is Ok ==> final(self).files() == old(self).files().insert(path@, content@),
    ;

    /// Drop the entry under `path`.
    fn remove_file(&mut self, path: &str) -> (r: Result<(), RepoError>)
        ensures
            r is Ok ==> final(self).files() == old(self).files().remove(path@),
    ;

    /// Read text from a path outside the managed store, such as a configured
    /// template. What it returns depends on the environment.
    fn read_template(&self, path: &str) -> (r: Result<String, RepoError>);
}

// ---------------------------------------------------------------------------
// The in-memory store
// ---------------------------------------------------------------------------

/// The map a list of files denotes, later entries winning.
pub open spec fn map_of(l: Seq<FileView>) -> Map<Seq<char>, Seq<char>>
    decreases l.len(),
{
    if l.len() == 0 {
        Map::<Seq<char>, Seq<char>>::empty()
    } else {
        map_of(l.drop_last()).insert(l.last().name, l.last().text)
    }
}

pub open spec fn distinct_names(l: Seq<FileView>) -> bool {
    forall|i: int, j: int| 0 <= i < j < l.len() ==> l[i].name != l[j].name
}

proof fn lemma_map_of_props(l: Seq<FileView>)
    requires
        distinct_names(l),
    ensures
        forall|i: int| 0 <= i < l.len() ==> map_of(l).contains_pair(
            #[trigger] l[i].name,
            l[i].text,
        ),
        forall|k: Seq<char>|
            map_of(l).dom().contains(k) ==> exists|i: int|
                0 <= i < l.len() && #[trigger] l[i].name == k,
    decreases l.len(),
{
    if l.len() > 0 {
        let init = l.drop_last();
        assert(distinct_names(init));
        lemma_map_of_props(init);
        assert(forall|i: int| 0 <= i < init.len() ==> init[i] == l[i]);
        assert forall|i: int| 0 <= i < l.len() implies map_of(l).contains_pair(
            #[trigger] l[i].name,
            l[i].text,
        ) by {
            if i < l.len() - 1 {
                assert(map_of(init).contains_pair(l[i].name, l[i].text));
                assert(l[i].name != l.last().name);
            }
        }
        assert forall|k: Seq<char>| map_of(l).dom().contains(k) implies exists|i: int|
            0 <= i < l.len() && #[trigger] l[i].name == k by {
            if k == l.last().name {
                assert(l[l.len() - 1].name == k);
            } else {
                assert(map_of(init).dom().contains(k));
                let i = choose|i: int| 0 <= i < init.len() && #[trigger] init[i].name == k;
                assert(l[i].name == k);
            }
        }
    }
}

proof fn lemma_map_of_update(l: Seq<FileView>, i: int, f: FileView)
    requires
        distinct_names(l),
        0 <= i < l.len(),
        f.name == l[i].name,
    ensures
        map_of(l.update(i, f)) == map_of(l).insert(f.name, f.text),
    decreases l.len(),
{
    let u = l.update(i, f);
    if i == l.len() - 1 {
        assert(u.drop_last() =~= l.drop_last());
        assert(u.last() == f);
        assert(map_of(u) == map_of(l.drop_last()).insert(f.name, f.text));
        assert(map_of(l) == map_of(l.drop_last()).insert(l.last().name, l.last().text));
        assert(map_of(l).insert(f.name, f.text) =~= map_of(l.drop_last()).insert(f.name, f.text));
    } else {
        let init = l.drop_last();
        assert(distinct_names(init));
        assert(forall|k: int| 0 <= k < init.len() ==> init[k] == l[k]);
        lemma_map_of_update(init, i, f);
        assert(u.drop_last() =~= init.update(i, f));
        assert(u.last() == l.last());
        assert(map_of(u) == map_of(init).insert(f.name, f.text).insert(
            l.last().name,
            l.last().text,
        ));
        assert(f.name != l.last().name);
        assert(map_of(init).insert(f.name, f.text).insert(l.last().name, l.last().text) =~= map_of(
            init,
        ).insert(l.last().name, l.last().text).insert(f.name, f.text));
    }
}

proof fn lemma_map_of_remove(l: Seq<FileView>, i: int)
    requires
        distinct_names(l),
        0 <= i < l.len(),
    ensures
        map_of(l.remove(i)) == map_of(l).remove(l[i].name),
    decreases l.len(),
{
    let name = l[i].name;
    lemma_map_of_props(l);
    if i == l.len() - 1 {
        assert(l.remove(i) =~= l.drop_last());
        lemma_map_of_props(l.drop_last());
        assert(!map_of(l.drop_last()).dom().contains(name)) by {
            if map_of(l.drop_last()).dom().contains(name) {
                let j = choose|j: int|
                    0 <= j < l.drop_last().len() && #[trigger] l.drop_last()[j].name == name;
                assert(l[j].name == l[i].name);
            }
        }
        assert(map_of(l.drop_last()) =~= map_of(l.drop_last()).insert(name, l[i].text).remove(
            name,
        ));
    } else {
        let init = l.drop_last();
        assert(distinct_names(init));
        lemma_map_of_remove(init, i);
        assert(l.remove(i).drop_last() =~= init.remove(i));
        assert(l.remove(i).last() == l.last());
        assert(map_of(l.remove(i)) == map_of(init).remove(name).insert(
            l.last().name,
            l.last().text,
        ));
        assert(name != l.last().name);
        assert(map_of(init).remove(name).insert(l.last().name, l.last().text) =~= map_of(
            init,
        ).insert(l.last().name, l.last().text).remove(name));
    }
}

/// A store held entirely in memory: the collection as a vector of files.
pub struct MemRepository {
    files: Vec<SourceFile>,
}

impl MemRepository {
    #[verifier::type_invariant]
    spec fn wf(&self) -> bool {
        distinct_names(self.files.deep_view())
    }

    /// An empty store.
    pub fn new() -> (r: MemRepository)
        ensures
            r.files() == Map::<Seq<char>, Seq<char>>::empty(),
    {
        let r = MemRepository { files: Vec::new() };
        proof {
            assert(r.files.deep_view() =~= Seq::<FileView>::empty());
        }
        r
    }

    /// Index of the entry named `path`, if any.
    fn find_index(&self, path: &str) -> (r: Option<usize>)
        ensures
            match r {
                Some(i) => i < self.files@.len() && self.files.deep_view()[i as int].name == path@,
                None => forall|i: int|
                    0 <= i < self.files.deep_view().len()
                        ==> (#[trigger] self.files.deep_view()[i]).name != path@,
            },
    {
        let target = chars_of(path);
        let mut i: usize = 0;
        while i < self.files.len()
            invariant
                i <= self.files@.len(),
                target@ == path@,
                forall|j: int|
                    0 <= j < i ==> (#[trigger] self.files.deep_view()[j]).name != path@,
            decreases self.files.len() - i,
        {
            let name_cs = chars_of(self.files[i].name.as_str());
            if eq_chars(&name_cs, &target) {
                proof {
                    assert(self.files.deep_view()[i as int].name == self.files@[i as int].name@);
                }
                return Some(i);
            }
            proof {
                assert(self.files.deep_view()[i as int].name == self.files@[i as int].name@);
            }
            i = i + 1;
        }
        None
    }
}

impl AdrRepository for MemRepository {
    closed spec fn files(&self) -> Map<Seq<char>, Seq<char>> {
        map_of(self.files.deep_view())
    }

    fn list_files(&self) -> (r: Result<Vec<SourceFile>, RepoError>)
        ensures
            r is Ok,
    {
        proof {
            use_type_invariant(self);
            lemma_map_of_props(self.files.deep_view());
        }
        let mut v: Vec<SourceFile> = Vec::new();
        let mut i: usize = 0;
        proof {
            assert(v.deep_view() =~= self.files.deep_view().take(0));
        }
        while i < self.files.len()
            invariant
                i <= self.files@.len(),
                v.deep_view() == self.files.deep_view().take(i as int),
            decreases self.files.len() - i,
        {
            let ghost prev = v.deep_view();
            let f = &self.files[i];
            v.push(SourceFile { name: f.name.clone(), text: f.text.clone() });
            proof {
                assert(v.deep_view() =~= prev.push(self.files.deep_view()[i as int]));
                assert(v.deep_view() =~= self.files.deep_view().take(i + 1));
            }
            i = i + 1;
        }
        proof {
            assert(self.files.deep_view().take(self.files@.len() as int) =~= self.files.deep_view());
        }
        Ok(v)
    }

    fn read_string(&self, path: &str) -> (r: Result<String, RepoError>)
        ensures
            r is Ok <==> self.files().dom().contains(path@),
    {
        proof {
            use_type_invariant(self);
            lemma_map_of_props(self.files.deep_view());
        }
        proof {
            if map_of(self.files.deep_view()).dom().contains(path@) {
                let j = choose|j: int|
                    0 <= j < self.files.deep_view().len() && #[trigger] self.files.deep_view()[
                        j
                    ].name == path@;
            }
        }
        match self.find_index(path) {
            Some(i) => Ok(self.files[i].text.clone()),
            None => Err(
                RepoError {
                    message: {
                        let mut m = chars_of("no such file: ");
                        crate::text::push_all(&mut m, &chars_of(path));
                        string_of(&m)
                    },
                },
            ),
        }
    }

    fn write_string(&mut self, path: &str, content: &str) -> (r: Result<(), RepoError>)
        ensures
            r is Ok,
    {
        proof {
            use_type_invariant(&*self);
        }
        let ghost before = self.files.deep_view();
        let ghost fv = FileView { name: path@, text: content@ };
        let found = self.find_index(path);
        let mut v: Vec<SourceFile> = Vec::new();
        let mut j: usize = 0;
        proof {
            match found {
                Some(i) => {
                    assert(v.deep_view() =~= before.update(i as int, fv).take(0));
                },
                None => {
                    assert(v.deep_view() =~= before.take(0));
                },
            }
        }
        while j < self.files.len()
            invariant
                j <= self.files@.len(),
                before == self.files.deep_view(),
                before.len() == self.files@.len(),
                fv == (FileView { name: path@, text: content@ }),
                match found {
                    Some(i) => i < before.len() && before[i as int].name == path@ && v.deep_view()
                        == before.update(i as int, fv).take(j as int),
                    None => v.deep_view() == before.take(j as int),
                },
            decreases self.files.len() - j,
        {
            let ghost prev = v.deep_view();
            let replace_here = match found {
                Some(i) => j == i,
                None => false,
            };
            if replace_here {
                v.push(
                    SourceFile {
                        name: string_of(&chars_of(path)),
                        text: string_of(&chars_of(content)),
                    },
                );
            } else {
                let f = &self.files[j];
                v.push(SourceFile { name: f.name.clone(), text: f.text.clone() });
                proof {
                    assert(self.files.deep_view()[j as int] == before[j as int]);
                }
            }
            proof {
                match found {
                    Some(i) => {
                        assert(v.deep_view() =~= prev.push(
                            before.update(i as int, fv)[j as int],
                        ));
                        assert(v.deep_view() =~= before.update(i as int, fv).take(j + 1));
                    },
                    None => {
                        assert(v.deep_view() =~= prev.push(before[j as int]));
                        assert(v.deep_view() =~= before.take(j + 1));
                    },
                }
            }
            j = j + 1;
        }
        match found {
            Some(i) => {
                proof {
                    assert(before.update(i as int, fv).take(before.len() as int) =~= before.update(
                        i as int,
                        fv,
                    ));
                }
                proof {
                    lemma_map_of_update(before, i as int, fv);
                    assert(distinct_names(before.update(i as int, fv)));
                }
                self.files = v;
            },
            None => {
                proof {
                    assert(before.take(before.len() as int) =~= before);
                }
                v.push(
                    SourceFile {
                        name: string_of(&chars_of(path)),
                        text: string_of(&chars_of(content)),
                    },
                );
                proof {
                    assert(v.deep_view() =~= before.push(fv));
                    assert(v.deep_view().drop_last() =~= before);
                    assert(distinct_names(v.deep_view()));
                }
                self.files = v;
                proof {
                    assert(self.files.deep_view() =~= before.push(fv));
                }
            },
        }
        Ok(())
    }

    fn remove_file(&mut self, path: &str) -> (r: Result<(), RepoError>)
        ensures
            r is Ok,
    {
        proof {
            use_type_invariant(&*self);
            lemma_map_of_props(self.files.deep_view());
        }
        let ghost before = self.files.deep_view();
        match self.find_index(path) {
            Some(i) => {
                let mut v: Vec<SourceFile> = Vec::new();
                let mut j: usize = 0;
                proof {
                    assert(v.deep_view() =~= before.remove(i as int).take(0));
                }
                while j < self.files.len()
                    invariant
                        j <= self.files@.len(),
                        before == self.files.deep_view(),
                        before.len() == self.files@.len(),
                        i < before.len(),
                        v.deep_view() == before.remove(i as int).take(
                            if j <= i {
                                j as int
                            } else {
                                j - 1
                            },
                        ),
                    decreases self.files.len() - j,
                {
                    let ghost prev = v.deep_view();
                    if j != i {
                        let f = &self.files[j];
                        v.push(SourceFile { name: f.name.clone(), text: f.text.clone() });
                        proof {
                            assert(self.files.deep_view()[j as int] == before[j as int]);
                            if j < i {
                                assert(before.remove(i as int)[j as int] == before[j as int]);
                                assert(v.deep_view() =~= prev.push(
                                    before.remove(i as int)[j as int],
                                ));
                                assert(v.deep_view() =~= before.remove(i as int).take(j + 1));
                            } else {
                                assert(before.remove(i as int)[j - 1] == before[j as int]);
                                assert(v.deep_view() =~= prev.push(before.remove(i as int)[j - 1]));
                                assert(v.deep_view() =~= before.remove(i as int).take(j as int));
                            }
                        }
                    }
                    j = j + 1;
                }
                proof {
                    assert(before.remove(i as int).take(before.len() - 1) =~= before.remove(
                        i as int,
                    ));
                }
                proof {
                    lemma_map_of_remove(before, i as int);
                    assert(before[i as int].name == path@);
                    assert(distinct_names(before.remove(i as int)));
                }
                self.files = v;
            },
            None => {
                proof {
                    assert(!map_of(before).dom().contains(path@)) by {
                        if map_of(before).dom().contains(path@) {
                            let j = choose|j: int|
                                0 <= j < before.len() && #[trigger] before[j].name == path@;
                        }
                    }
                    assert(map_of(before).remove(path@) =~= map_of(before));
                }
            },
        }
        Ok(())
    }

    fn read_template(&self, path: &str) -> (r: Result<String, RepoError>) {
        self.read_string(path)
    }
}

/// Where the generated index lives: the index filename joined to the
/// document directory.
pub fn idx_path(dir: &str, index_name: &str) -> (r: String)
    ensures
        r@ == dir@ + seq!['/'] + index_name@,
{
    let mut out = chars_of(dir);
    out.push('/');
    crate::text::push_all(&mut out, &chars_of(index_name));
    string_of(&out)
}

} // verus!

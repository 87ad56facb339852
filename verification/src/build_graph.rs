use crate::text::{concat3, str_eq};
use vstd::prelude::*;

verus! {

/// Gives the source text of the modules that a program imports.
pub trait FileProvider {
    /// The source text of the module `module_name` (dot separated), or a
    /// message saying why it cannot be had.
    fn get_file(&mut self, module_name: &str) -> Result<String, String>;
}

/// The message for a module that no search location holds.
pub open spec fn not_found_message(module_name: Seq<char>) -> Seq<char> {
    "Module '"@ + module_name + "' not found"@
}

pub fn module_not_found(module_name: &str) -> (r: String)
    ensures
        r@ == not_found_message(module_name@),
{
    concat3("Module '", module_name, "' not found")
}

/// Module sources held in memory, by module name.
pub struct MemoryFileProvider {
    files: Vec<(String, String)>,
}

/// The source that `files` holds for `name`, if any.
pub open spec fn source_of(files: Seq<(Seq<char>, Seq<char>)>, name: Seq<char>) -> Option<Seq<char>>
    decreases files.len(),
{
    if files.len() == 0 {
        None
    } else if files[0].0 == name {
        Some(files[0].1)
    } else {
        source_of(files.drop_first(), name)
    }
}

impl MemoryFileProvider {
    /// The modules, as (name, source) pairs.
    pub closed spec fn view(&self) -> Seq<(Seq<char>, Seq<char>)> {
        self.files@.map_values(|f: (String, String)| (f.0@, f.1@))
    }

    pub fn new() -> (r: Self)
        ensures
            r.view() == Seq::<(Seq<char>, Seq<char>)>::empty(),
            forall|name: Seq<char>| source_of(r.view(), name) is None,
    {
        let r = MemoryFileProvider { files: Vec::new() };
        proof {
            assert(r.view() =~= Seq::<(Seq<char>, Seq<char>)>::empty());
        }
        r
    }

    fn find(&self, name: &str) -> (r: Option<usize>)
        ensures
            r is Some ==> r->0 < self.files@.len() && self.files@[r->0 as int].0@ == name@ && source_of(self.view(), name@)
                == Some(self.files@[r->0 as int].1@),
            r is Some ==> forall|j: int| 0 <= j < r->0 ==> (#[trigger] self.view()[j]).0 != name@,
            r is None ==> source_of(self.view(), name@) is None,
    {
        let mut i: usize = 0;
        proof {
            assert(self.view().skip(0) =~= self.view());
        }
        while i < self.files.len()
            invariant
                i <= self.files@.len(),
                source_of(self.view(), name@) == source_of(self.view().skip(i as int), name@),
                forall|j: int| 0 <= j < i ==> (#[trigger] self.view()[j]).0 != name@,
            decreases self.files@.len() - i,
        {
            proof {
                assert(self.view().skip(i as int).drop_first() =~= self.view().skip(i as int + 1));
                assert(self.view().skip(i as int)[0] == (self.files@[i as int].0@, self.files@[i as int].1@));
            }
            if str_eq(self.files[i].0.as_str(), name) {
                return Some(i);
            }
            i = i + 1;
        }
        None
    }

    /// Sets the source of the module `name`, replacing any it had.
    pub fn add_file(&mut self, name: String, source: String)
        ensures
            source_of(final(self).view(), name@) == Some(source@),
            forall|other: Seq<char>| other != name@ ==> source_of(final(self).view(), other) == source_of(old(self).view(), other),
    {
        match self.find(name.as_str()) {
            Some(i) => {
                let ghost before = self.view();
                let ghost nm = name@;
                let ghost src = source@;
                self.files.set(i, (name, source));
                proof {
                    assert(self.view() =~= before.update(i as int, (nm, src)));
                    assert forall|other: Seq<char>| #[trigger] source_of(self.view(), other) == if other == nm {
                        Some(src)
                    } else {
                        source_of(before, other)
                    } by {
                        lemma_source_of_update(before, i as int, nm, src, other);
                    }
                }
            },
            None => {
                let ghost before = self.view();
                let ghost nm = name@;
                let ghost src = source@;
                self.files.push((name, source));
                proof {
                    assert(self.view() =~= before.push((nm, src)));
                    assert forall|other: Seq<char>| #[trigger] source_of(self.view(), other) == if other == nm {
                        Some(src)
                    } else {
                        source_of(before, other)
                    } by {
                        lemma_source_of_push(before, nm, src, other);
                    }
                }
            },
        }
    }
}

proof fn lemma_source_of_update(files: Seq<(Seq<char>, Seq<char>)>, i: int, name: Seq<char>, src: Seq<char>, other: Seq<char>)
    requires
        0 <= i < files.len(),
        files[i].0 == name,
        forall|j: int| 0 <= j < i ==> (#[trigger] files[j]).0 != name,
    ensures
        source_of(files.update(i, (name, src)), other) == if other == name {
            Some(src)
        } else {
            source_of(files, other)
        },
    decreases files.len(),
{
    let u = files.update(i, (name, src));
    if i > 0 {
        assert(files[0].0 != name);
        assert(u.drop_first() =~= files.drop_first().update(i - 1, (name, src)));
        assert forall|j: int| 0 <= j < i - 1 implies (#[trigger] files.drop_first()[j]).0 != name by {
            assert(files.drop_first()[j] == files[j + 1]);
        }
        lemma_source_of_update(files.drop_first(), i - 1, name, src, other);
    } else {
        assert(u.drop_first() =~= files.drop_first());
    }
}

proof fn lemma_source_of_push(files: Seq<(Seq<char>, Seq<char>)>, name: Seq<char>, src: Seq<char>, other: Seq<char>)
    requires
        source_of(files, name) is None,
    ensures
        source_of(files.push((name, src)), other) == if other == name {
            Some(src)
        } else {
            source_of(files, other)
        },
    decreases files.len(),
{
    let p = files.push((name, src));
    if files.len() > 0 {
        assert(p[0] == files[0]);
        assert(files[0].0 != name);
        assert(p.drop_first() =~= files.drop_first().push((name, src)));
        lemma_source_of_push(files.drop_first(), name, src, other);
    } else {
        assert(p[0] == (name, src));
        assert(p.drop_first() =~= Seq::<(Seq<char>, Seq<char>)>::empty());
        assert(source_of(p.drop_first(), other) is None);
    }
}

impl FileProvider for MemoryFileProvider {
    fn get_file(&mut self, module_name: &str) -> (r: Result<String, String>)
        ensures
            *final(self) == *old(self),
            match source_of(old(self).view(), module_name@) {
                Some(src) => r is Ok && r->Ok_0@ == src,
                None => r is Err && r->Err_0@ == not_found_message(module_name@),
            },
    {
        match self.find(module_name) {
            Some(i) => Ok(self.files[i].1.clone()),
            None => Err(module_not_found(module_name)),
        }
    }
}

} // verus!

//! Saving and loading the state of a model: what the savers and loaders
//! are told, before any file is touched.

use crate::hashing::{bind_name, lookup_name, named_ids, new_name_map};
use rustc_hash::FxHashMap;
use vstd::prelude::*;
use vstd::string::StringExecFns;

verus! {

/// Saves the state of a model to a safetensors file.
pub struct SafeTensorSaver {
    path: String,
}

impl SafeTensorSaver {
    /// The file to write.
    pub closed spec fn spec_path(&self) -> Seq<char> {
        self.path@
    }

    /// A saver that writes to `path`.
    pub fn new(path: &str) -> (s: Self)
        ensures
            s.spec_path() == path@,
    {
        Self { path: path.to_string() }
    }

    /// The file to write.
    pub fn path(&self) -> (p: &str)
        ensures
            p@ == self.spec_path(),
    {
        self.path.as_str()
    }
}

/// Loads the state of a model from safetensors files.
pub struct SafeTensorLoader {
    paths: Vec<String>,
}

impl SafeTensorLoader {
    /// The files to read, in the order in which they are searched.
    pub closed spec fn spec_paths(&self) -> Seq<String> {
        self.paths@
    }

    /// A loader that reads the files `paths`: each path is kept as the
    /// text that its `Display` gives.
    pub fn new<S: core::fmt::Display>(paths: &[S]) -> (l: Self)
        ensures
            l.spec_paths().len() == paths@.len(),
            forall|i: int|
                0 <= i < paths@.len() ==> vstd::string::to_string_from_display_ensures::<S>(
                    &paths@[i],
                    #[trigger] l.spec_paths()[i],
                ),
    {
        let mut owned: Vec<String> = Vec::new();
        let mut i: usize = 0;
        while i < paths.len()
            invariant
                i <= paths@.len(),
                owned@.len() == i,
                forall|j: int|
                    0 <= j < i ==> vstd::string::to_string_from_display_ensures::<S>(
                        &paths@[j],
                        #[trigger] owned@[j],
                    ),
            decreases paths@.len() - i,
        {
            owned.push(paths[i].to_string());
            i += 1;
        }
        Self { paths: owned }
    }

    /// The number of files to read.
    pub fn len(&self) -> (n: usize)
        ensures
            n == self.spec_paths().len(),
    {
        self.paths.len()
    }

    /// The path of file `i`.
    pub fn path(&self, i: usize) -> (p: &str)
        requires
            i < self.spec_paths().len(),
        ensures
            p@ == self.spec_paths()[i as int]@,
    {
        self.paths[i].as_str()
    }
}


/// The components of a path joined by `/`.
pub open spec fn joined(path: Seq<Seq<char>>) -> Seq<char>
    decreases path.len(),
{
    if path.len() == 0 {
        Seq::empty()
    } else if path.len() == 1 {
        path[0]
    } else {
        joined(path.drop_last()) + seq!['/'] + path.last()
    }
}

/// The path below `path` that the name leads to: `path` itself for the
/// empty name.
pub open spec fn below(path: Seq<Seq<char>>, name: Seq<char>) -> Seq<Seq<char>> {
    if name.len() == 0 {
        path
    } else {
        path.push(name)
    }
}

/// Something that can say which tensors make up its state.
pub trait SerializeModule {
    /// Adds the tensors of the module to the serializer, below the path
    /// the serializer stands at, and leaves the serializer at that path.
    fn serialize(&self, s: &mut Serializer)
        ensures
            final(s).path() == old(s).path(),
    ;
}

/// Collects the tensors and modules that make up a model, each under
/// the path of names that leads to it.
pub struct Serializer {
    current_path: Vec<String>,
    pub state: FxHashMap<String, u32>,
}

/// One tensor of a model.
pub struct TensorEntry {
    pub name: String,
    pub id: u32,
}

impl SerializeModule for TensorEntry {
    fn serialize(&self, s: &mut Serializer)
        ensures
            final(s).names() == old(s).names().insert(
                joined(below(old(s).path(), self.name@)),
                self.id,
            ),
    {
        s.tensor(self.name.as_str(), self.id);
    }
}

impl Serializer {
    /// The names on the way to where the serializer stands.
    pub closed spec fn path(&self) -> Seq<Seq<char>> {
        Seq::new(self.current_path@.len(), |i: int| self.current_path@[i]@)
    }

    /// The tensors collected so far: node id by joined path.
    pub closed spec fn names(&self) -> Map<Seq<char>, u32> {
        named_ids(self.state)
    }

    /// A serializer at the root that has collected nothing.
    pub fn new() -> (s: Serializer)
        ensures
            s.path() == Seq::<Seq<char>>::empty(),
            s.names().dom() == Set::<Seq<char>>::empty(),
    {
        let s = Serializer { current_path: Vec::new(), state: new_name_map() };
        assert(s.path() =~= Seq::<Seq<char>>::empty());
        s
    }

    /// Steps down to `name`; stays where it is for the empty name.
    pub fn enter(&mut self, name: &str)
        ensures
            final(self).path() == below(old(self).path(), name@),
            final(self).names() == old(self).names(),
    {
        if !name.is_empty() {
            self.current_path.push(String::from_str(name));
            assert(self.path() =~= old(self).path().push(name@));
        }
    }

    /// Steps up again from `name`: the last name of the path leaves,
    /// if the path has one; nothing happens for the empty name.
    pub fn leave(&mut self, name: &str)
        ensures
            final(self).path() == if name@.len() == 0 || old(self).path().len() == 0 {
                old(self).path()
            } else {
                old(self).path().drop_last()
            },
            final(self).names() == old(self).names(),
    {
        if !name.is_empty() {
            let _ = self.current_path.pop();
            proof {
                if old(self).path().len() > 0 {
                    assert(self.path() =~= old(self).path().drop_last());
                } else {
                    assert(self.path() =~= old(self).path());
                }
            }
        }
    }

    /// The path the serializer stands at, joined by `/`.
    pub fn key(&self) -> (k: String)
        ensures
            k@ == joined(self.path()),
    {
        let mut k = String::new();
        let mut i: usize = 0;
        while i < self.current_path.len()
            invariant
                i <= self.current_path@.len(),
                k@ == joined(self.path().take(i as int)),
            decreases self.current_path@.len() - i,
        {
            proof {
                let next = self.path().take(i as int + 1);
                assert(next.drop_last() =~= self.path().take(i as int));
                assert(next.last() == self.current_path@[i as int]@);
            }
            if i > 0 {
                k.append("/");
                proof {
                    reveal_strlit("/");
                    assert("/"@ =~= seq!['/']);
                }
            } else {
                assert(k@ + self.current_path@[0]@ =~= self.current_path@[0]@);
            }
            k.append(self.current_path[i].as_str());
            i += 1;
        }
        assert(self.path().take(self.current_path@.len() as int) =~= self.path());
        k
    }

    /// Records the tensor at node `id` under `name`, below the path the
    /// serializer stands at; under that path itself for the empty name.
    pub fn tensor(&mut self, name: &str, id: u32)
        ensures
            final(self).path() == old(self).path(),
            final(self).names() == old(self).names().insert(
                joined(below(old(self).path(), name@)),
                id,
            ),
    {
        self.enter(name);
        let key = self.key();
        bind_name(&mut self.state, key, id);
        self.leave(name);
        assert(self.path() =~= old(self).path());
    }

    /// Lets `module` record its tensors below `name`: the module is handed
    /// the serializer as [`Serializer::enter`] leaves it, what the module
    /// leaves in it is what the serializer holds afterwards, and the
    /// serializer comes back to the path it stood at.
    pub fn module<T: SerializeModule>(&mut self, name: &str, module: &T)
        ensures
            final(self).path() == old(self).path(),
            exists|handed: &mut Serializer|
                #![trigger call_ensures(T::serialize, (module, handed), ())]
                mut_ref_current(handed).path() == below(old(self).path(), name@)
                    && mut_ref_current(handed).names() == old(self).names() && call_ensures(
                    T::serialize,
                    (module, handed),
                    (),
                ) && final(self).names() == mut_ref_future(handed).names(),
    {
        self.enter(name);
        module.serialize(self);
        self.leave(name);
        assert(self.path() =~= old(self).path());
    }

    /// The node id recorded under the joined path `key`.
    pub fn get(&self, key: &str) -> (r: Option<u32>)
        ensures
            r == if self.names().contains_key(key@) {
                Some(self.names()[key@])
            } else {
                None
            },
    {
        lookup_name(&self.state, key)
    }
}

/// The tensors that `model` records with a serializer that starts at
/// the root with nothing collected: node id by joined path.
pub fn state_dict<M: SerializeModule>(model: &M) -> (state: FxHashMap<String, u32>)
    ensures
        exists|handed: &mut Serializer|
            #![trigger call_ensures(M::serialize, (model, handed), ())]
            mut_ref_current(handed).path() == Seq::<Seq<char>>::empty() && mut_ref_current(
                handed,
            ).names() == Map::<Seq<char>, u32>::empty() && call_ensures(
                M::serialize,
                (model, handed),
                (),
            ) && named_ids(state) == mut_ref_future(handed).names(),
{
    let mut s = Serializer::new();
    assert(s.names() =~= Map::<Seq<char>, u32>::empty());
    model.serialize(&mut s);
    s.state
}

impl Default for Serializer {
    fn default() -> (s: Serializer)
        ensures
            s.path() == Seq::<Seq<char>>::empty(),
            s.names().dom() == Set::<Seq<char>>::empty(),
    {
        Serializer::new()
    }
}

/// The text with every `/` turned into `.`.
pub open spec fn dotted(name: Seq<char>) -> Seq<char> {
    Seq::new(
        name.len(),
        |i: int|
            if name[i] == '/' {
                '.'
            } else {
                name[i]
            },
    )
}

/// `str::replace` of `/` by `.`: every character stays but the slashes,
/// which become dots.
#[verifier::external_body]
fn replace_slashes(name: &str) -> (r: String)
    ensures
        r@ == dotted(name@),
{
    name.replace('/', ".")
}

/// The name under which a safetensors file holds the tensor that the
/// serializer knows by the joined path `weight_name`.
pub fn tensor_key(weight_name: &str) -> (key: String)
    ensures
        key@ == dotted(weight_name@),
{
    replace_slashes(weight_name)
}

/// The number formats that a loader turns into single precision.
#[derive(Debug, Clone, Copy, PartialEq, Eq, Structural)]
pub enum Precision {
    F32,
    F16,
    BF16,
}

impl Precision {
    /// The bytes of one number.
    pub open spec fn spec_width(self) -> usize {
        match self {
            Precision::F32 => 4,
            Precision::F16 => 2,
            Precision::BF16 => 2,
        }
    }

    /// The bytes of one number.
    pub fn width(self) -> (w: usize)
        ensures
            w == self.spec_width(),
    {
        match self {
            Precision::F32 => 4,
            Precision::F16 => 2,
            Precision::BF16 => 2,
        }
    }

    /// The whole numbers that `bytes` bytes hold; bytes left over are
    /// not read.
    pub fn element_count(self, bytes: usize) -> (n: usize)
        ensures
            n == bytes as int / self.spec_width() as int,
    {
        bytes / self.width()
    }
}

} // verus!

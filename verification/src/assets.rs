//! Shared assets, loaded once and handed out by name.

use vstd::prelude::*;
use vstd::string::StringExecFns;
use std::collections::HashMap;
use std::rc::Rc;
use crate::collections::HashMapExt;
use crate::collections::pushed;
use crate::collections::share;
use crate::type_id::TypeIdNamed;

verus! {

/// A named, shared asset. Copies of a handle share one payload.
pub struct Handle<A: ?Sized> {
    pub name: String,
    pub data: Rc<A>,
}

impl<A> Handle<A> {
    /// The asset itself.
    pub open spec fn payload(&self) -> A {
        *self.data
    }

    /// The asset itself, to read.
    pub fn get(&self) -> (data: &A)
        ensures
            *data == self.payload(),
    {
        &*self.data
    }
}

impl<A: ?Sized> Handle<A> {
    /// A handle to `data` under `name`.
    pub fn new(name: String, data: Rc<A>) -> (handle: Self)
        ensures
            handle.name == name,
            handle.data == data,
    {
        Handle { name, data }
    }

    /// This handle as a handle to an asset of the type `T`: the same name,
    /// and what `cast` makes of the shared pointer to the asset, which for a
    /// cast that only changes the type of the pointer is the same
    /// allocation. The asset has to be one that the cast accepts: an asset
    /// of another type is an error of the caller's, which nothing can be
    /// done about here.
    pub fn downcast<T, F: Fn(Rc<A>) -> Result<Rc<T>, Rc<A>>>(&self, cast: F) -> (typed: Handle<T>)
        requires
            call_requires(cast, (self.data,)),
            forall|outcome: Result<Rc<T>, Rc<A>>|
                call_ensures(cast, (self.data,), outcome) ==> outcome is Ok,
        ensures
            typed.name == self.name,
            call_ensures(cast, (self.data,), Ok::<Rc<T>, Rc<A>>(typed.data)),
    {
        match cast(share(&self.data)) {
            Ok(data) => Handle { name: self.name.clone(), data },
            Err(_) => vstd::pervasive::unreached(),
        }
    }
}

impl<A: ?Sized> Clone for Handle<A> {
    /// Another handle to the same asset.
    fn clone(&self) -> (copy: Self)
        ensures
            copy == *self,
    {
        Handle { name: self.name.clone(), data: share(&self.data) }
    }
}

/// How assets of one type are loaded.
pub struct AssetLoader<F> {
    pub id: TypeIdNamed,
    pub loader: F,
}

/// Where the files of assets are looked for, in front of an asset's name.
pub open spec fn asset_path(name: Seq<char>) -> Seq<char> {
    "assets/"@ + name
}

/// The position of the first handle in `handles` with the name `name`.
pub open spec fn found_at<A: ?Sized>(handles: Seq<Handle<A>>, name: Seq<char>, at: int) -> bool {
    &&& 0 <= at < handles.len()
    &&& handles[at].name@ == name
    &&& forall|j: int| 0 <= j < at ==> (#[trigger] handles[j]).name@ != name
}

/// Whether no handle in `handles` has the name `name`.
pub open spec fn not_among<A: ?Sized>(handles: Seq<Handle<A>>, name: Seq<char>) -> bool {
    forall|j: int| 0 <= j < handles.len() ==> (#[trigger] handles[j]).name@ != name
}

/// The position of the first loader in `loaders` for the type with key
/// `key`.
pub open spec fn loader_at<F>(loaders: Seq<AssetLoader<F>>, key: u64, at: int) -> bool {
    &&& 0 <= at < loaders.len()
    &&& loaders[at].id.id == key
    &&& forall|j: int| 0 <= j < at ==> (#[trigger] loaders[j]).id.id != key
}

/// The assets loaded so far: by type, the handles in the order of loading.
pub struct Assets<A: ?Sized> {
    pub handles: HashMap<u64, Vec<Handle<A>>>,
}

impl<A: ?Sized> View for Assets<A> {
    type V = Map<u64, Seq<Handle<A>>>;

    open spec fn view(&self) -> Map<u64, Seq<Handle<A>>> {
        self.handles.lists()
    }
}

impl<A: ?Sized> Assets<A> {
    /// The handles of the type with key `key`; none for a type never loaded.
    pub open spec fn of_type(self, key: u64) -> Seq<Handle<A>> {
        if self@.contains_key(key) {
            self@[key]
        } else {
            Seq::empty()
        }
    }

    /// No asset.
    pub fn new() -> (assets: Self)
        ensures
            assets@ == Map::<u64, Seq<Handle<A>>>::empty(),
    {
        let assets = Assets { handles: HashMap::new() };
        proof {
            assert(assets@ =~= Map::empty());
        }
        assets
    }

    /// Every asset of the type `tag` that was loaded, in the order of
    /// loading.
    pub fn get(&self, tag: TypeIdNamed) -> (found: Vec<Handle<A>>)
        ensures
            found@ == self.of_type(tag.id),
    {
        broadcast use vstd::std_specs::hash::group_hash_axioms;

        let mut found: Vec<Handle<A>> = Vec::new();
        match self.handles.get(&tag.id) {
            Some(handles) => {
                let mut i: usize = 0;
                while i < handles.len()
                    invariant
                        i <= handles.len(),
                        handles@ == self.of_type(tag.id),
                        found@ == handles@.take(i as int),
                    decreases handles.len() - i,
                {
                    found.push(handles[i].clone());
                    proof {
                        assert(handles@.take(i + 1) =~= handles@.take(i as int).push(
                            handles@[i as int],
                        ));
                    }
                    i += 1;
                }
                proof {
                    assert(handles@.take(handles@.len() as int) =~= handles@);
                }
            },
            None => {},
        }
        found
    }

    /// The asset of the type `tag` that was loaded under `name`: the first,
    /// should there be several.
    pub fn find(&self, tag: TypeIdNamed, name: &str) -> (found: Option<Handle<A>>)
        ensures
            match found {
                Some(handle) => exists|at: int|
                    #[trigger] found_at(self.of_type(tag.id), name@, at) && handle == self.of_type(
                        tag.id,
                    )[at],
                None => not_among(self.of_type(tag.id), name@),
            },
    {
        broadcast use vstd::std_specs::hash::group_hash_axioms;

        let wanted = name.to_owned();
        match self.handles.get(&tag.id) {
            Some(handles) => {
                let mut i: usize = 0;
                while i < handles.len()
                    invariant
                        i <= handles.len(),
                        wanted@ == name@,
                        handles@ == self.of_type(tag.id),
                        forall|j: int| 0 <= j < i ==> (#[trigger] handles@[j]).name@ != name@,
                    decreases handles.len() - i,
                {
                    if handles[i].name == wanted {
                        assert(found_at(self.of_type(tag.id), name@, i as int));
                        return Some(handles[i].clone());
                    }
                    i += 1;
                }
                None
            },
            None => None,
        }
    }

    /// Keeps `data` as an asset of the type `tag` under `name`, after the
    /// assets of that type that are there, and hands out a handle to it.
    pub fn store(&mut self, tag: TypeIdNamed, name: &str, data: Rc<A>) -> (handle: Handle<A>)
        ensures
            handle.name@ == name@,
            handle.data == data,
            final(self)@ == pushed(old(self)@, tag.id, handle),
    {
        broadcast use vstd::std_specs::hash::group_hash_axioms;

        let handle = Handle { name: name.to_owned(), data };
        self.handles.push_or_insert(tag.id, handle.clone());
        handle
    }

    /// The position in `loaders` of the first loader for the type `tag`.
    pub fn loader_for<F>(loaders: &Vec<AssetLoader<F>>, tag: TypeIdNamed) -> (at: Option<usize>)
        ensures
            match at {
                Some(at) => loader_at(loaders@, tag.id, at as int),
                None => forall|j: int| 0 <= j < loaders.len() ==> (#[trigger] loaders@[j]).id.id
                    != tag.id,
            },
    {
        let mut i: usize = 0;
        while i < loaders.len()
            invariant
                i <= loaders.len(),
                forall|j: int| 0 <= j < i ==> (#[trigger] loaders@[j]).id.id != tag.id,
            decreases loaders.len() - i,
        {
            if loaders[i].id.id == tag.id {
                return Some(i);
            }
            i += 1;
        }
        None
    }

    /// The asset of the type `tag` with the name `name`: the one that was
    /// loaded under that name before, or else what the loader of the type
    /// makes of the file `assets/` + `name`, which is then kept. Where the
    /// loader fails, its error is handed on and nothing is kept. The loader
    /// of the type is the first one registered for it, and it is called
    /// only for a name that is not held.
    pub fn load<E, F: Fn(&str) -> Result<Rc<A>, E>>(
        &mut self,
        loaders: &Vec<AssetLoader<F>>,
        tag: TypeIdNamed,
        name: &str,
    ) -> (loaded: Result<Handle<A>, E>)
        requires
            exists|at: int| loader_at(loaders@, tag.id, at),
            not_among(old(self).of_type(tag.id), name@) ==> forall|at: int, path: &str|
                loader_at(loaders@, tag.id, at) && path@ == asset_path(name@)
                    ==> #[trigger] call_requires(loaders@[at].loader, (path,)),
        ensures
            !not_among(old(self).of_type(tag.id), name@) ==> final(self)@ == old(self)@ && exists|
                at: int,
            |
                #[trigger] found_at(old(self).of_type(tag.id), name@, at) && loaded == Ok::<
                    Handle<A>,
                    E,
                >(old(self).of_type(tag.id)[at]),
            not_among(old(self).of_type(tag.id), name@) ==> exists|
                at: int,
                path: &str,
                outcome: Result<Rc<A>, E>,
            |
                {
                    &&& loader_at(loaders@, tag.id, at)
                    &&& path@ == asset_path(name@)
                    &&& #[trigger] call_ensures(loaders@[at].loader, (path,), outcome)
                    &&& match outcome {
                        Ok(data) => loaded matches Ok(handle) && handle.name@ == name@
                            && handle.data == data && final(self)@ == pushed(
                            old(self)@,
                            tag.id,
                            handle,
                        ),
                        Err(error) => loaded == Err::<Handle<A>, E>(error) && final(self)@ == old(
                            self,
                        )@,
                    }
                },
    {
        match self.find(tag, name) {
            Some(handle) => Ok(handle),
            None => {
                let at = match Self::loader_for(loaders, tag) {
                    Some(at) => at,
                    None => {
                        proof {
                            let at = choose|at: int| loader_at(loaders@, tag.id, at);
                            assert(loaders@[at].id.id == tag.id);
                            assert(false);
                        }
                        0
                    },
                };
                let path = String::from_str("assets/").concat(name);
                match (loaders[at].loader)(path.as_str()) {
                    Ok(data) => Ok(self.store(tag, name, data)),
                    Err(error) => Err(error),
                }
            },
        }
    }
}

} // verus!

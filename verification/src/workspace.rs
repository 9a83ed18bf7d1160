//! An opened workspace: the evaluation engine's state for it, its root, its
//! materialized stdlib and the options it was opened with. Discovering the
//! workspace and resolving its dependencies is the engine's work, which the
//! caller performs; a workspace holds what that gave and hands it back.
use vstd::prelude::*;
use crate::bytes::copy;
use crate::editability::ov;

verus! {

/// How to open a workspace.
#[derive(Debug, Clone)]
pub struct OpenOptions {
    /// Skip network fetches; fail if a remote dependency isn't cached or
    /// vendored.
    pub offline: bool,
    /// Explicit stdlib source directory (one containing `pcb.toml`), kept
    /// with the workspace; copying it into `<root>/.pcb/stdlib` is the
    /// opener's file work.
    pub stdlib_source: Option<Vec<u8>>,
}

impl Default for OpenOptions {
    fn default() -> (r: OpenOptions)
        ensures
            !r.offline,
            r.stdlib_source is None,
    {
        OpenOptions { offline: false, stdlib_source: None }
    }
}

/// Where discovery of the workspace containing `path` starts: the
/// directory holding it when it names a file, else the path itself.
pub open spec fn spec_discovery_start(path: Seq<u8>, is_file: bool, parent: Option<Seq<u8>>) -> Seq<u8> {
    if is_file {
        match parent {
            Some(p) => p,
            None => path,
        }
    } else {
        path
    }
}

pub fn discovery_start(path: &[u8], is_file: bool, parent: Option<Vec<u8>>) -> (r: Vec<u8>)
    ensures
        r@ == spec_discovery_start(path@, is_file, ov(parent)),
{
    let mut own: Vec<u8> = Vec::new();
    crate::text::push_all(&mut own, path);
    if is_file {
        match parent {
            Some(p) => p,
            None => own,
        }
    } else {
        own
    }
}

/// An opened workspace with resolved dependencies; `E` is the evaluation
/// engine's state.
pub struct Workspace<E> {
    eval: E,
    root: Vec<u8>,
    stdlib: Vec<u8>,
    opts: OpenOptions,
}

impl<E> Workspace<E> {
    pub closed spec fn root_view(&self) -> Seq<u8> {
        self.root@
    }

    pub closed spec fn stdlib_view(&self) -> Seq<u8> {
        self.stdlib@
    }

    pub closed spec fn engine_view(&self) -> E {
        self.eval
    }

    pub closed spec fn offline_view(&self) -> bool {
        self.opts.offline
    }

    pub closed spec fn stdlib_source_view(&self) -> Option<Seq<u8>> {
        ov(self.opts.stdlib_source)
    }

    /// The workspace resolved at `root`, with its engine state, its
    /// materialized stdlib directory and a copy of the options it was
    /// opened with.
    pub fn open_with(eval: E, root: Vec<u8>, stdlib: Vec<u8>, opts: &OpenOptions) -> (r: Self)
        ensures
            r.engine_view() == eval,
            r.root_view() == root@,
            r.stdlib_view() == stdlib@,
            r.offline_view() == opts.offline,
            r.stdlib_source_view() == ov(opts.stdlib_source),
    {
        let source = match &opts.stdlib_source {
            Some(s) => Some(copy(s)),
            None => None,
        };
        Workspace { eval, root, stdlib, opts: OpenOptions { offline: opts.offline, stdlib_source: source } }
    }

    /// [`Workspace::open_with`] with default options but `offline`: no
    /// explicit stdlib source.
    pub fn open(eval: E, root: Vec<u8>, stdlib: Vec<u8>, offline: bool) -> (r: Self)
        ensures
            r.engine_view() == eval,
            r.root_view() == root@,
            r.stdlib_view() == stdlib@,
            r.offline_view() == offline,
            r.stdlib_source_view() is None,
    {
        Self::open_with(eval, root, stdlib, &OpenOptions { offline, stdlib_source: None })
    }

    /// The workspace root (the directory containing `pcb.toml`, or the
    /// fallback root chosen by discovery).
    pub fn root(&self) -> (r: &[u8])
        ensures
            r@ == self.root_view(),
    {
        self.root.as_slice()
    }

    /// The materialized stdlib dir (`<root>/.pcb/stdlib`).
    pub fn stdlib_dir(&self) -> (r: Vec<u8>)
        ensures
            r@ == self.stdlib_view(),
    {
        copy(&self.stdlib)
    }

    /// Whether the workspace was opened offline.
    pub fn offline(&self) -> (r: bool)
        ensures
            r == self.offline_view(),
    {
        self.opts.offline
    }

    /// The stdlib source it was opened with, if any.
    pub fn stdlib_source(&self) -> (r: Option<Vec<u8>>)
        ensures
            ov(r) == self.stdlib_source_view(),
    {
        match &self.opts.stdlib_source {
            Some(s) => Some(copy(s)),
            None => None,
        }
    }

    pub fn engine(&self) -> (r: &E)
        ensures
            *r == self.engine_view(),
    {
        &self.eval
    }

    /// Take up the result of redoing discovery and dependency resolution
    /// from the current root with the same options (on `pcb.toml`
    /// changes); the options are kept.
    pub fn reload(&mut self, eval: E, root: Vec<u8>, stdlib: Vec<u8>)
        ensures
            final(self).engine_view() == eval,
            final(self).root_view() == root@,
            final(self).stdlib_view() == stdlib@,
            final(self).offline_view() == old(self).offline_view(),
            final(self).stdlib_source_view() == old(self).stdlib_source_view(),
    {
        self.eval = eval;
        self.root = root;
        self.stdlib = stdlib;
    }
}

} // verus!

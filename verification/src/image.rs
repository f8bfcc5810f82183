//! The record of one image: its source file, what is known of its pyramid,
//! and which level of it is loaded.

use crate::metadata::Metadata;
use vstd::prelude::*;

verus! {

/// What went wrong outside the cache manager, by origin. Each variant carries
/// the description that the caller gives of the failure.
#[derive(Debug, PartialEq, Eq)]
pub enum E {
    /// The store failed to read or write.
    DatabaseError(String),
    /// A stored payload could not be decoded.
    DecodeError(String),
    /// A payload could not be encoded.
    EncodeError(String),
    /// A tile that the metadata refers to is absent from the store.
    MissingData(String),
    /// The thumbnailer could not read the source image.
    ImageError(String),
}

/// The result of work done outside the cache manager.
pub type R<T> = Result<T, E>;

/// The source of one image: where it is, when it changed, how large it is.
#[derive(Debug, Clone, PartialEq, Eq, PartialOrd, Ord, Default)]
pub struct File {
    pub path: String,
    pub modified: u64,
    pub file_size: u64,
}

/// What is known of an image's pyramid.
#[derive(Debug, PartialEq, Eq)]
pub enum MetadataState {
    /// The store has not been asked yet.
    Unknown,
    /// The store holds no pyramid for the image.
    Missing,
    /// The pyramid's metadata.
    Loaded(Metadata),
    /// The lookup or the generation failed. Nothing is tried again.
    Errored,
}

impl Default for MetadataState {
    fn default() -> (r: MetadataState)
        ensures
            r is Unknown,
    {
        MetadataState::Unknown
    }
}

/// One image of the collection.
#[derive(Debug)]
pub struct Image {
    pub(crate) i: usize,
    pub(crate) file: File,
    pub(crate) metadata: MetadataState,
    pub(crate) size: Option<usize>,
}

impl Image {
    /// The image's sequence number.
    pub closed spec fn index(&self) -> usize {
        self.i
    }

    /// The image's source file.
    pub closed spec fn source(&self) -> File {
        self.file
    }

    /// What is known of the image's pyramid.
    pub closed spec fn state(&self) -> MetadataState {
        self.metadata
    }

    /// The level that is loaded, if any.
    pub closed spec fn level(&self) -> Option<usize> {
        self.size
    }

    /// The number of levels of the image's pyramid, 0 where it has none.
    pub open spec fn level_count(&self) -> nat {
        match self.state() {
            MetadataState::Loaded(m) => m.thumbs@.len(),
            _ => 0,
        }
    }

    /// The level that counts as current: the loaded one, and level 0 where
    /// none is loaded.
    pub open spec fn current_level(&self) -> int {
        match self.level() {
            Some(k) => k as int,
            None => 0,
        }
    }

    /// A loaded level is a level of the image's pyramid.
    pub open spec fn wf(&self) -> bool {
        self.level() matches Some(k) ==> k < self.level_count()
    }

    /// The same image with its pyramid state replaced and no level loaded.
    pub closed spec fn with_state(self, state: MetadataState) -> Image {
        Image { i: self.i, file: self.file, metadata: state, size: None }
    }

    /// The same image with the given level loaded, or none.
    pub closed spec fn with_level(self, level: Option<usize>) -> Image {
        Image { i: self.i, file: self.file, metadata: self.metadata, size: level }
    }

    /// What `with_state` changes and what it keeps.
    pub proof fn lemma_with_state(self, state: MetadataState)
        ensures
            self.with_state(state).index() == self.index(),
            self.with_state(state).source() == self.source(),
            self.with_state(state).state() == state,
            self.with_state(state).level() is None,
            self.with_state(state).wf(),
    {
    }

    /// What `with_level` changes and what it keeps.
    pub proof fn lemma_with_level(self, level: Option<usize>)
        ensures
            self.with_level(level).index() == self.index(),
            self.with_level(level).source() == self.source(),
            self.with_level(level).state() == self.state(),
            self.with_level(level).level() == level,
            self.with_level(self.level()) == self,
    {
    }

    /// The record of image number `i`, of which nothing is known yet.
    pub fn from(i: usize, file: File) -> (r: Image)
        ensures
            r.wf(),
            r.index() == i,
            r.source() == file,
            r.state() is Unknown,
            r.level() is None,
    {
        Image { i, file, metadata: MetadataState::Unknown, size: None }
    }

    /// The image's sequence number.
    pub fn i(&self) -> (r: usize)
        ensures
            r == self.index(),
    {
        self.i
    }

    /// The image's source file.
    pub fn file(&self) -> (r: &File)
        ensures
            *r == self.source(),
    {
        &self.file
    }

    /// What is known of the image's pyramid.
    pub fn metadata(&self) -> (r: &MetadataState)
        ensures
            *r == self.state(),
    {
        &self.metadata
    }

    /// The level that is loaded, if any.
    pub fn size(&self) -> (r: Option<usize>)
        ensures
            r == self.level(),
    {
        self.size
    }

    /// Whether the store holds no pyramid for the image.
    pub fn is_missing(&self) -> (r: bool)
        ensures
            r == (self.state() is Missing),
    {
        match &self.metadata {
            MetadataState::Missing => true,
            _ => false,
        }
    }

    /// Forgets which level is loaded. What is known of the pyramid stays.
    pub fn reset(&mut self)
        ensures
            *final(self) == old(self).with_level(None),
            final(self).wf(),
    {
        self.size = None;
    }

    /// Records what was learnt of the pyramid. No level is loaded afterwards.
    pub(crate) fn set_state(&mut self, state: MetadataState)
        ensures
            *final(self) == old(self).with_state(state),
            final(self).wf(),
    {
        self.metadata = state;
        self.size = None;
    }

    /// Records which level is loaded. It must be a level of the pyramid.
    pub(crate) fn set_level(&mut self, level: usize)
        requires
            level < old(self).level_count(),
        ensures
            *final(self) == old(self).with_level(Some(level)),
            final(self).wf(),
    {
        self.size = Some(level);
    }
}

} // verus!

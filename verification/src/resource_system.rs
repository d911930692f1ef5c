//! The resource registry: byte buffers by the name of their source.
//!
//! A resource is read once, in full, and then served from memory.  The
//! registry itself never touches a file: it is handed what was read and says
//! what is to be done next, so that the same rules hold whatever the bytes are
//! stored on.

use crate::ids::{lemma_no_index, lemma_only_index};
use vstd::prelude::*;

verus! {

/// Names a resource among all resources.
pub type TResourceID = u16;

/// Why a request to the resource registry was refused.
#[derive(Debug, PartialEq, Eq, Structural, Clone, Copy)]
pub enum ResourceError {
    /// The source has no name.
    EmptyPath,
    /// The source holds no bytes, and an empty source was not asked for.
    EmptySource,
    /// Every id up to the largest is taken.
    IdsExhausted,
    /// No resource goes by that id.
    NotFound,
    /// The serializer did not make the bytes to write.
    SerializeFailed,
    /// The source could not be written.
    Io,
}

impl ResourceError {
    /// The text of [`ResourceError::message`].
    pub open spec fn text(self) -> Seq<char> {
        match self {
            ResourceError::EmptyPath => "file_paths passed is empty string (unspecified)"@,
            ResourceError::EmptySource => "file_paths passed is 0 bytes in length"@,
            ResourceError::IdsExhausted => "no resource id is left"@,
            ResourceError::NotFound => "cannot locate index to resource_id"@,
            ResourceError::SerializeFailed => "Call to resource::serialize_for_save failed"@,
            ResourceError::Io => "the resource could not be written"@,
        }
    }

    /// A sentence that describes the error, for logs and for people.
    pub fn message(&self) -> (s: String)
        ensures
            s@ == self.text(),
    {
        match self {
            ResourceError::EmptyPath => "file_paths passed is empty string (unspecified)".to_owned(),
            ResourceError::EmptySource => "file_paths passed is 0 bytes in length".to_owned(),
            ResourceError::IdsExhausted => "no resource id is left".to_owned(),
            ResourceError::NotFound => "cannot locate index to resource_id".to_owned(),
            ResourceError::SerializeFailed =>
                "Call to resource::serialize_for_save failed".to_owned(),
            ResourceError::Io => "the resource could not be written".to_owned(),
        }
    }
}

/// Why [`Resource::read_data`] has no value to give.
#[derive(Debug, PartialEq, Eq)]
pub enum ReadError<E> {
    /// The resource holds no bytes.
    EmptyBuffer,
    /// The deserializer refused the bytes, for the reason enclosed.
    Refused(E),
}

/// What happened on the way to a backing file; see [`Resource::create`].
#[derive(Debug, PartialEq, Eq, Structural, Clone, Copy)]
pub enum CreateEvent {
    /// Nothing yet: the file was not touched.
    Begin,
    /// The file was not there and was made, empty.
    Created,
    /// The file was to be made anew, and is there already.
    AlreadyExists,
    /// The file could not be made anew because there is no such place.
    NotFound,
    /// The file could not be made anew, for another reason.
    CreateFailed,
    /// The file was made, or emptied if it was there.
    Truncated,
    /// The file could not be made or emptied.
    TruncateFailed,
}

/// What is to be done next on the way to a backing file; see
/// [`Resource::create`].
#[derive(Debug, PartialEq, Eq, Structural, Clone, Copy)]
pub enum CreateAction {
    /// Make the file if it is not there; a file that is there is left as it
    /// is and reported as `AlreadyExists`.
    CreateNew,
    /// Make the file, or empty it if it is there.
    Truncate,
    /// The file is there: read it and register it with [`Resource::new`],
    /// allowing it to be empty.
    Register,
    /// Give up, with the error of the last step.
    Fail,
}

/// A byte buffer and where it came from.
#[derive(Debug, PartialEq)]
pub struct Resource {
    id: TResourceID,
    paths: String,
    buffer: Vec<u8>,
}

/// What a [`Resource`] holds.
pub struct ResourceView {
    pub id: TResourceID,
    pub paths: Seq<char>,
    pub buffer: Seq<u8>,
}

impl View for Resource {
    type V = ResourceView;

    closed spec fn view(&self) -> ResourceView {
        ResourceView { id: self.id, paths: self.paths@, buffer: self.buffer@ }
    }
}

impl Clone for Resource {
    fn clone(&self) -> (copy: Self)
        ensures
            copy@ == self@,
    {
        Resource { id: self.id, paths: self.paths.clone(), buffer: self.buffer.clone() }
    }
}

/// The ids of the resources, in the order of the resources.
pub open spec fn resource_ids(resources: Seq<ResourceView>) -> Seq<TResourceID> {
    resources.map_values(|resource: ResourceView| resource.id)
}

/// The id that the next resource gets: one more than that of the last, and 1
/// in an empty registry.
pub open spec fn next_resource_id(resources: Seq<ResourceView>) -> int {
    if resources.len() == 0 {
        1
    } else {
        resources.last().id + 1
    }
}

/// The registry of resources.
pub struct ResourceFactory {
    resources: Vec<Resource>,
}

impl View for ResourceFactory {
    type V = Seq<ResourceView>;

    closed spec fn view(&self) -> Seq<ResourceView> {
        Seq::new(self.resources@.len(), |i: int| self.resources@[i]@)
    }
}

/// The ids grow from each resource to the next.
pub open spec fn resource_ids_ascend(resources: Seq<ResourceView>) -> bool {
    forall|i: int, j: int|
        0 <= i < j < resources.len() ==> (#[trigger] resources[i]).id < (#[trigger] resources[j]).id
}

impl ResourceFactory {
    /// What every registry that this library hands out satisfies, and what
    /// its operations rely on: the resources stand by ascending id.
    pub open spec fn wf(&self) -> bool {
        resource_ids_ascend(self@)
    }

    /// A registry without resources.
    pub fn new() -> (factory: ResourceFactory)
        ensures
            factory.wf(),
            factory@ == Seq::<ResourceView>::empty(),
    {
        ResourceFactory { resources: Vec::new() }
    }
}

/// The id that [`Resource::new`] gives out is larger than every id in the
/// registry.  No resource ever leaves the registry, so these are all the ids
/// that it ever gave out.
pub proof fn lemma_new_resource_id_is_unused(resources: Seq<ResourceView>, i: int)
    requires
        resource_ids_ascend(resources),
        0 <= i < resources.len(),
    ensures
        resources[i].id < next_resource_id(resources),
{
    if i < resources.len() - 1 {
        assert(resources[i].id < resources[resources.len() - 1].id);
    }
}

impl Resource {
    /// The id under which the registry holds the resource.
    pub fn id(&self) -> (id: TResourceID)
        ensures
            id == self@.id,
    {
        self.id
    }

    /// The name of the source that the bytes came from.
    pub fn paths(&self) -> (paths: &String)
        ensures
            paths@ == self@.paths,
    {
        &self.paths
    }

    /// The bytes of the resource, as the deserializer of
    /// [`Resource::read_data`] gets them.
    pub closed spec fn cached(&self) -> Vec<u8> {
        self.buffer
    }

    /// The bytes of the resource are its buffer.
    pub proof fn lemma_cached(&self)
        ensures
            self.cached()@ == self@.buffer,
    {
    }

    /// Whether a source is worth reading: it has a name, and it holds bytes
    /// unless an empty source is asked for.  `source_len` is the length that
    /// the source reports, 0 where it reports none.
    pub fn admits(file_paths: &String, source_len: u64, allow_empty_file: bool) -> (r: Result<
        (),
        ResourceError,
    >)
        ensures
            file_paths@.len() == 0 ==> r == Err::<(), ResourceError>(ResourceError::EmptyPath),
            file_paths@.len() > 0 && source_len == 0 && !allow_empty_file ==> r == Err::<
                (),
                ResourceError,
            >(ResourceError::EmptySource),
            file_paths@.len() > 0 && (source_len > 0 || allow_empty_file) ==> r is Ok,
    {
        if file_paths.as_str().is_empty() {
            return Err(ResourceError::EmptyPath);
        }
        if source_len == 0 && !allow_empty_file {
            return Err(ResourceError::EmptySource);
        }
        Ok(())
    }

    /// Registers what was read from the source `file_paths`: the bytes
    /// `contents` become a resource under the next id, at the end of the
    /// registry.  A source without a name is refused, and so is one without
    /// bytes unless `allow_empty_file` is set; the registry then stays as it
    /// was.
    pub fn new(
        factory: &mut ResourceFactory,
        file_paths: String,
        contents: Vec<u8>,
        allow_empty_file: bool,
    ) -> (r: Result<TResourceID, ResourceError>)
        requires
            old(factory).wf(),
        ensures
            final(factory).wf(),
            r == Resource::registered(old(factory)@, file_paths@, contents@, allow_empty_file),
            r is Err ==> final(factory)@ == old(factory)@,
            r matches Ok(id) ==> final(factory)@ == old(factory)@.push(
                ResourceView { id, paths: file_paths@, buffer: contents@ },
            ),
    {
        if file_paths.as_str().is_empty() {
            return Err(ResourceError::EmptyPath);
        }
        if contents.len() == 0 && !allow_empty_file {
            return Err(ResourceError::EmptySource);
        }
        let count: usize = factory.resources.len();
        let max_id: TResourceID = if count == 0 {
            0
        } else {
            factory.resources[count - 1].id
        };
        assert(count > 0 ==> factory@.last().id == max_id) by {
            if count > 0 {
                assert(factory@[count - 1] == factory.resources@[count - 1]@);
            }
        }
        if max_id == u16::MAX {
            return Err(ResourceError::IdsExhausted);
        }
        let new_id: TResourceID = max_id + 1;
        let ghost added = ResourceView { id: new_id, paths: file_paths@, buffer: contents@ };
        factory.resources.push(Resource { id: new_id, paths: file_paths, buffer: contents });
        assert(factory@ =~= old(factory)@.push(added));
        assert(resource_ids_ascend(factory@)) by {
            assert forall|i: int, j: int| 0 <= i < j < factory@.len() implies (
            #[trigger] factory@[i]).id < (#[trigger] factory@[j]).id by {
                if j < count {
                    assert(factory@[i] == old(factory)@[i]);
                    assert(factory@[j] == old(factory)@[j]);
                } else {
                    assert(factory@[i] == old(factory)@[i]);
                    if i < count - 1 {
                        assert(old(factory)@[i].id < old(factory)@[count - 1].id);
                    }
                }
            }
        }
        Ok(new_id)
    }

    /// What [`Resource::new`] returns for a registry that holds `resources`.
    pub open spec fn registered(
        resources: Seq<ResourceView>,
        file_paths: Seq<char>,
        contents: Seq<u8>,
        allow_empty_file: bool,
    ) -> Result<TResourceID, ResourceError> {
        if file_paths.len() == 0 {
            Err(ResourceError::EmptyPath)
        } else if contents.len() == 0 && !allow_empty_file {
            Err(ResourceError::EmptySource)
        } else if next_resource_id(resources) > u16::MAX {
            Err(ResourceError::IdsExhausted)
        } else {
            Ok(next_resource_id(resources) as u16)
        }
    }

    /// The next step towards a backing file that is there to be registered,
    /// given the last thing that happened.
    ///
    /// The way starts with `Begin`.  With `overwrite_if_exists` the file is
    /// made or, if it is there, emptied, and then registered.  Without, the
    /// file is made if it is not there, and a file that is there is
    /// registered as it is.  Whatever goes wrong ends the way.
    pub fn create(event: CreateEvent, overwrite_if_exists: bool) -> (action: CreateAction)
        ensures
            action == Resource::create_step(event, overwrite_if_exists),
    {
        match event {
            CreateEvent::Begin => {
                if overwrite_if_exists {
                    CreateAction::Truncate
                } else {
                    CreateAction::CreateNew
                }
            },
            CreateEvent::Created => CreateAction::Register,
            CreateEvent::AlreadyExists => {
                if overwrite_if_exists {
                    CreateAction::Truncate
                } else {
                    CreateAction::Register
                }
            },
            CreateEvent::NotFound => CreateAction::Truncate,
            CreateEvent::CreateFailed => CreateAction::Fail,
            CreateEvent::Truncated => CreateAction::Register,
            CreateEvent::TruncateFailed => CreateAction::Fail,
        }
    }

    /// The step that [`Resource::create`] answers an event with.
    pub open spec fn create_step(event: CreateEvent, overwrite_if_exists: bool) -> CreateAction {
        match event {
            CreateEvent::Begin => if overwrite_if_exists {
                CreateAction::Truncate
            } else {
                CreateAction::CreateNew
            },
            CreateEvent::AlreadyExists => if overwrite_if_exists {
                CreateAction::Truncate
            } else {
                CreateAction::Register
            },
            CreateEvent::Created | CreateEvent::Truncated => CreateAction::Register,
            CreateEvent::NotFound => CreateAction::Truncate,
            CreateEvent::CreateFailed | CreateEvent::TruncateFailed => CreateAction::Fail,
        }
    }

    /// Where a file is to be overwritten, the way begins by emptying it, and
    /// nothing is registered but a file that was just made or emptied: what
    /// the file held before is never registered.
    pub proof fn lemma_overwritten_source_is_emptied(event: CreateEvent)
        ensures
            Resource::create_step(CreateEvent::Begin, true) == CreateAction::Truncate,
            Resource::create_step(event, true) != CreateAction::CreateNew,
            Resource::create_step(event, true) == CreateAction::Register ==> event
                == CreateEvent::Truncated || event == CreateEvent::Created,
    {
    }

    /// A copy of the resource that goes by `res_id`.
    pub fn get(factory: &ResourceFactory, res_id: TResourceID) -> (r: Result<
        Resource,
        ResourceError,
    >)
        requires
            factory.wf(),
        ensures
            match resource_ids(factory@).index_of_first(res_id) {
                Some(index) => r is Ok && r->Ok_0@ == factory@[index],
                None => r == Err::<Resource, ResourceError>(ResourceError::NotFound),
            },
    {
        let ghost ids = resource_ids(factory@);
        let mut low: usize = 0;
        let mut high: usize = factory.resources.len();
        while low < high
            invariant
                low <= high <= factory.resources@.len(),
                factory.wf(),
                ids == resource_ids(factory@),
                forall|k: int| 0 <= k < low ==> ids[k] < res_id,
                forall|k: int| high <= k < ids.len() ==> ids[k] > res_id,
            decreases high - low,
        {
            let middle: usize = low + (high - low) / 2;
            let id: TResourceID = factory.resources[middle].id;
            assert(ids[middle as int] == id);
            if id == res_id {
                proof {
                    assert forall|i: int, j: int| 0 <= i < j < ids.len() implies ids[i]
                        < ids[j] by {
                        assert(factory@[i].id < factory@[j].id);
                    }
                    lemma_only_index(ids, res_id, middle as int);
                }
                return Ok(factory.resources[middle].clone());
            } else if id < res_id {
                assert forall|k: int| 0 <= k < middle + 1 implies ids[k] < res_id by {
                    if k < middle {
                        assert(factory@[k].id < factory@[middle as int].id);
                    }
                }
                low = middle + 1;
            } else {
                assert forall|k: int| middle <= k < ids.len() implies ids[k] > res_id by {
                    if k > middle {
                        assert(factory@[middle as int].id < factory@[k].id);
                    }
                }
                high = middle;
            }
        }
        proof {
            lemma_no_index(ids, res_id);
        }
        Err(ResourceError::NotFound)
    }

    /// Makes the bytes that are to be written over the source of the
    /// resource: calls `func_serialize_for_save` once and hands its bytes on.
    /// Once they are written, [`Resource::stored`] takes them into the
    /// resource.
    pub fn write_data<TF, E>(&self, func_serialize_for_save: TF) -> (r: Result<
        Vec<u8>,
        ResourceError,
    >) where TF: Fn() -> Result<Vec<u8>, E>
        requires
            call_requires(func_serialize_for_save, ()),
        ensures
            exists|made: Result<Vec<u8>, E>|
                {
                    &&& call_ensures(func_serialize_for_save, (), made)
                    &&& r == Resource::to_write(made)
                },
    {
        let made = func_serialize_for_save();
        let r = match made {
            Ok(serialized_buffer) => Ok(serialized_buffer),
            Err(_) => Err(ResourceError::SerializeFailed),
        };
        assert(r == Resource::to_write(made));
        r
    }

    /// What [`Resource::write_data`] makes of what the serializer returned.
    pub open spec fn to_write<E>(made: Result<Vec<u8>, E>) -> Result<Vec<u8>, ResourceError> {
        match made {
            Ok(bytes) => Ok(bytes),
            Err(_) => Err(ResourceError::SerializeFailed),
        }
    }

    /// Ends a write of `serialized_buffer` over the source of the resource.
    /// `written` says whether all the bytes reached the source: if so, the
    /// resource now holds them and they are handed back; if not, the
    /// resource holds what it held.
    pub fn stored(&mut self, serialized_buffer: Vec<u8>, written: bool) -> (r: Result<
        Vec<u8>,
        ResourceError,
    >)
        ensures
            written ==> r is Ok && r->Ok_0@ == serialized_buffer@ && final(self)@ == (
            ResourceView { buffer: serialized_buffer@, ..old(self)@ }),
            !written ==> r == Err::<Vec<u8>, ResourceError>(ResourceError::Io) && final(self)@
                == old(self)@,
    {
        if !written {
            return Err(ResourceError::Io);
        }
        self.buffer = serialized_buffer.clone();
        Ok(serialized_buffer)
    }

    /// Reads a value out of the bytes that the resource holds: calls
    /// `func_deserialize_for_load` once, on those bytes, unless there are
    /// none.  The source itself is not read again.
    pub fn read_data<T, E, TFn>(&self, func_deserialize_for_load: TFn) -> (r: Result<
        T,
        ReadError<E>,
    >) where TFn: Fn(&Vec<u8>) -> Result<T, E>
        requires
            self@.buffer.len() > 0 ==> call_requires(func_deserialize_for_load, (&self.cached(),)),
        ensures
            self@.buffer.len() == 0 ==> r == Err::<T, ReadError<E>>(ReadError::EmptyBuffer),
            self@.buffer.len() > 0 ==> exists|read: Result<T, E>|
                {
                    &&& call_ensures(func_deserialize_for_load, (&self.cached(),), read)
                    &&& r == Resource::as_read(read)
                },
    {
        if self.buffer.len() == 0 {
            return Err(ReadError::EmptyBuffer);
        }
        let read = func_deserialize_for_load(&self.buffer);
        let r = match read {
            Ok(o) => Ok(o),
            Err(e) => Err(ReadError::Refused(e)),
        };
        assert(r == Resource::as_read(read));
        r
    }

    /// What [`Resource::read_data`] makes of what the deserializer returned.
    pub open spec fn as_read<T, E>(read: Result<T, E>) -> Result<T, ReadError<E>> {
        match read {
            Ok(value) => Ok(value),
            Err(e) => Err(ReadError::Refused(e)),
        }
    }
}

} // verus!

use lib_tower_defense::map::{MapError, WorldMap};
use lib_tower_defense::resource_system::{
    CreateAction, CreateEvent, ReadError, Resource, ResourceError, ResourceFactory,
};

fn name(text: &str) -> String {
    text.to_owned()
}

#[test]
fn test_serialize_deserialize_io() {
    // the backing source, in memory
    let mut unit_test_bin_file_contents: Vec<u8> = Vec::new();
    let unit_test_bin_file = "./unit_test_serde.bin".to_owned();
    let mut resources = ResourceFactory::new();

    let res_id = match Resource::new(
        &mut resources,
        unit_test_bin_file.clone(),
        unit_test_bin_file_contents.clone(),
        false,
    ) {
        Ok(res_id) => res_id,
        Err(_e) => Resource::new(
            &mut resources,
            unit_test_bin_file.clone(),
            unit_test_bin_file_contents.clone(),
            true,
        )
        .unwrap(),
    };
    let mut res = Resource::get(&resources, res_id).unwrap();
    let mut the_map = WorldMap::create(64, 128).unwrap();
    let pos_x = 3;
    let pos_y = 5;
    let layer_id = 0;
    let new_val = 666;
    let mut cell = the_map.get_cell(pos_x, pos_y).unwrap();
    let _the_result = cell.set(layer_id, new_val).unwrap();
    the_map.set(pos_x, pos_y, cell).unwrap();

    // serialize to buffer
    let to_write = res.write_data(|| the_map.serialize_for_save()).unwrap();
    unit_test_bin_file_contents = to_write.clone();
    let my_map_serialized = res.stored(to_write, true).unwrap();
    assert_ne!(0, my_map_serialized.len());
    assert_eq!(my_map_serialized, unit_test_bin_file_contents);
    let map_from_serialized_data = WorldMap::deserialize_for_load(&my_map_serialized).unwrap();
    assert_eq!(the_map, map_from_serialized_data);

    // deserialize the buffer that was just serialized
    let my_map_deserialized = res.read_data(WorldMap::deserialize_for_load).unwrap();

    // should be about to just do struct equate
    assert_eq!(the_map, my_map_deserialized);

    // but just in case, we'll also check that the value we set is valid...
    assert_eq!(
        my_map_deserialized.get_cell(pos_x, pos_y).unwrap().layers[layer_id as usize].entity,
        new_val
    );
}

#[test]
fn register_gives_ascending_ids_from_one() {
    let mut resources = ResourceFactory::new();
    assert_eq!(Resource::new(&mut resources, name("a.bin"), vec![1], false), Ok(1));
    assert_eq!(Resource::new(&mut resources, name("b.bin"), vec![2, 3], false), Ok(2));
    assert_eq!(Resource::new(&mut resources, name("a.bin"), vec![], true), Ok(3));
    let b = Resource::get(&resources, 2).unwrap();
    assert_eq!(b.id(), 2);
    assert_eq!(b.paths(), "b.bin");
    assert_eq!(b.read_data(|bytes: &Vec<u8>| Ok::<Vec<u8>, ()>(bytes.clone())), Ok(vec![2, 3]));
}

#[test]
fn register_refuses_empty_path_and_empty_source() {
    let mut resources = ResourceFactory::new();
    assert_eq!(
        Resource::new(&mut resources, name(""), vec![1], false),
        Err(ResourceError::EmptyPath)
    );
    assert_eq!(
        Resource::new(&mut resources, name(""), vec![], true),
        Err(ResourceError::EmptyPath)
    );
    assert_eq!(
        Resource::new(&mut resources, name("a.bin"), vec![], false),
        Err(ResourceError::EmptySource)
    );
    assert_eq!(Resource::get(&resources, 1), Err(ResourceError::NotFound));
    assert_eq!(Resource::new(&mut resources, name("a.bin"), vec![], true), Ok(1));
}

#[test]
fn ids_of_resources_run_out() {
    let mut resources = ResourceFactory::new();
    for expected in 1..=u16::MAX {
        assert_eq!(Resource::new(&mut resources, name("r"), vec![0], false), Ok(expected));
    }
    assert_eq!(
        Resource::new(&mut resources, name("r"), vec![0], false),
        Err(ResourceError::IdsExhausted)
    );
    assert_eq!(Resource::get(&resources, u16::MAX).unwrap().id(), u16::MAX);
    assert_eq!(Resource::get(&resources, 40000).unwrap().id(), 40000);
    assert_eq!(Resource::get(&resources, 0), Err(ResourceError::NotFound));
}

#[test]
fn source_is_admitted() {
    assert_eq!(Resource::admits(&name(""), 10, true), Err(ResourceError::EmptyPath));
    assert_eq!(Resource::admits(&name(""), 0, false), Err(ResourceError::EmptyPath));
    assert_eq!(Resource::admits(&name("a"), 0, false), Err(ResourceError::EmptySource));
    assert_eq!(Resource::admits(&name("a"), 0, true), Ok(()));
    assert_eq!(Resource::admits(&name("a"), 1, false), Ok(()));
    assert_eq!(Resource::admits(&name("a"), u64::MAX, true), Ok(()));
}

#[test]
fn lookup_of_resources() {
    let mut resources = ResourceFactory::new();
    for i in 0..20u8 {
        Resource::new(&mut resources, format!("file{}", i), vec![i], false).unwrap();
    }
    for id in 1..=20u16 {
        let found = Resource::get(&resources, id).unwrap();
        assert_eq!(found.id(), id);
        assert_eq!(found.paths(), &format!("file{}", id - 1));
    }
    assert_eq!(Resource::get(&resources, 21), Err(ResourceError::NotFound));
    assert_eq!(Resource::get(&resources, 0), Err(ResourceError::NotFound));
}

#[test]
fn way_to_a_backing_file() {
    for overwrite in [false, true] {
        assert_eq!(Resource::create(CreateEvent::Created, overwrite), CreateAction::Register);
        assert_eq!(Resource::create(CreateEvent::NotFound, overwrite), CreateAction::Truncate);
        assert_eq!(Resource::create(CreateEvent::CreateFailed, overwrite), CreateAction::Fail);
        assert_eq!(Resource::create(CreateEvent::Truncated, overwrite), CreateAction::Register);
        assert_eq!(Resource::create(CreateEvent::TruncateFailed, overwrite), CreateAction::Fail);
    }
    assert_eq!(Resource::create(CreateEvent::Begin, false), CreateAction::CreateNew);
    assert_eq!(Resource::create(CreateEvent::Begin, true), CreateAction::Truncate);
    assert_eq!(Resource::create(CreateEvent::AlreadyExists, false), CreateAction::Register);
    assert_eq!(Resource::create(CreateEvent::AlreadyExists, true), CreateAction::Truncate);
}

/// Walks the way to a backing file over a source that holds `held`, or that
/// is not there, and says what the source holds when it is registered.
fn walk(held: Option<Vec<u8>>, overwrite: bool) -> Option<Vec<u8>> {
    let mut source = held;
    let mut event = CreateEvent::Begin;
    for _ in 0..8 {
        match Resource::create(event, overwrite) {
            CreateAction::CreateNew => {
                if source.is_some() {
                    event = CreateEvent::AlreadyExists;
                } else {
                    source = Some(Vec::new());
                    event = CreateEvent::Created;
                }
            }
            CreateAction::Truncate => {
                source = Some(Vec::new());
                event = CreateEvent::Truncated;
            }
            CreateAction::Register => return source,
            CreateAction::Fail => return None,
        }
    }
    panic!("the way does not end");
}

#[test]
fn overwriting_empties_the_source_and_opening_keeps_it() {
    assert_eq!(walk(Some(vec![1, 2, 3]), true), Some(vec![]));
    assert_eq!(walk(None, true), Some(vec![]));
    assert_eq!(walk(Some(vec![1, 2, 3]), false), Some(vec![1, 2, 3]));
    assert_eq!(walk(None, false), Some(vec![]));
}

#[test]
fn write_updates_the_cache_only_when_written() {
    let mut resources = ResourceFactory::new();
    let id = Resource::new(&mut resources, name("a.bin"), vec![1, 2, 3], false).unwrap();
    let mut res = Resource::get(&resources, id).unwrap();
    let echo = |bytes: &Vec<u8>| Ok::<Vec<u8>, ()>(bytes.clone());

    let bytes = res.write_data(|| Ok::<Vec<u8>, String>(vec![9, 8])).unwrap();
    assert_eq!(bytes, vec![9, 8]);
    assert_eq!(res.read_data(echo), Ok(vec![1, 2, 3]));
    assert_eq!(res.stored(bytes.clone(), false), Err(ResourceError::Io));
    assert_eq!(res.read_data(echo), Ok(vec![1, 2, 3]));
    assert_eq!(res.stored(bytes, true), Ok(vec![9, 8]));
    assert_eq!(res.read_data(echo), Ok(vec![9, 8]));
    // the registry keeps what was registered: the copy is what was written to
    assert_eq!(Resource::get(&resources, id).unwrap().read_data(echo), Ok(vec![1, 2, 3]));
}

#[test]
fn write_fails_when_the_serializer_fails() {
    let mut resources = ResourceFactory::new();
    let id = Resource::new(&mut resources, name("a.bin"), vec![1], false).unwrap();
    let res = Resource::get(&resources, id).unwrap();
    assert_eq!(
        res.write_data(|| Err::<Vec<u8>, String>(name("no"))),
        Err(ResourceError::SerializeFailed)
    );
    assert_eq!(
        res.write_data(|| Err::<Vec<u8>, MapError>(MapError::Oversized)),
        Err(ResourceError::SerializeFailed)
    );
}

#[test]
fn read_of_an_empty_resource_fails_without_asking() {
    let mut resources = ResourceFactory::new();
    let id = Resource::new(&mut resources, name("a.bin"), vec![], true).unwrap();
    let res = Resource::get(&resources, id).unwrap();
    let r: Result<u8, ReadError<String>> =
        res.read_data(|_bytes: &Vec<u8>| -> Result<u8, String> { panic!("asked") });
    assert_eq!(r, Err(ReadError::EmptyBuffer));
    assert_eq!(
        res.read_data(WorldMap::deserialize_for_load),
        Err(ReadError::EmptyBuffer)
    );
}

#[test]
fn read_hands_the_refusal_on() {
    let mut resources = ResourceFactory::new();
    let id = Resource::new(&mut resources, name("a.bin"), vec![0xc0], false).unwrap();
    let res = Resource::get(&resources, id).unwrap();
    assert_eq!(
        res.read_data(WorldMap::deserialize_for_load),
        Err(ReadError::Refused(MapError::Malformed))
    );
    assert_eq!(
        res.read_data(|bytes: &Vec<u8>| Err::<u8, usize>(bytes.len())),
        Err(ReadError::Refused(1))
    );
    assert_eq!(res.read_data(|bytes: &Vec<u8>| Ok::<u8, usize>(bytes[0])), Ok(0xc0));
}

#[test]
fn resource_error_messages() {
    assert_eq!(
        ResourceError::EmptyPath.message(),
        "file_paths passed is empty string (unspecified)"
    );
    assert_eq!(ResourceError::EmptySource.message(), "file_paths passed is 0 bytes in length");
    assert_eq!(
        ResourceError::SerializeFailed.message(),
        "Call to resource::serialize_for_save failed"
    );
    assert_eq!(ResourceError::NotFound.message(), "cannot locate index to resource_id");
    assert!(!ResourceError::IdsExhausted.message().is_empty());
    assert!(!ResourceError::Io.message().is_empty());
}

use pyarraypool::memory_info::ArrayPoolError;
use pyarraypool::memory_info::MemoryPool;
use pyarraypool::memory_info::MemorySlot;
use pyarraypool::memory_info::ObjectInfo;
use pyarraypool::memory_info::PythonId;

const MEMORY_SIZE: usize = 10 * 1024;
const SLOT_COUNT: usize = 4;
const SELF_PID: u32 = 7777;

#[test]
fn test_init() {
    let memory = MemoryPool::from_uninit_slice(
        vec![MemorySlot::empty(); SLOT_COUNT],
        MEMORY_SIZE,
        SELF_PID,
    );
    assert_eq!(
        memory.slots,
        vec![
            MemorySlot::with_size(MEMORY_SIZE),
            MemorySlot::empty(),
            MemorySlot::empty(),
            MemorySlot::empty(),
        ]
    );
}

#[test]
fn test_add_invalid_python_id() {
    let mut memory = MemoryPool::from_uninit_slice(
        vec![MemorySlot::empty(); SLOT_COUNT],
        MEMORY_SIZE,
        SELF_PID,
    );
    assert_eq!(
        memory.add_object(PythonId(0), 10),
        Err(ArrayPoolError::InvalidPythonId)
    );
}

#[test]
fn test_add_duplicated_object() {
    let mut memory = MemoryPool::from_uninit_slice(
        vec![MemorySlot::empty(); SLOT_COUNT],
        MEMORY_SIZE,
        SELF_PID,
    );

    assert_eq!(memory.add_object(PythonId(40), 10), Ok(0));
    assert_eq!(
        memory.add_object(PythonId(40), 10),
        Err(ArrayPoolError::ObjectAlreadyExists(PythonId(40)))
    );
}

#[test]
fn test_add_huge_bloc() {
    let mut memory = MemoryPool::from_uninit_slice(
        vec![MemorySlot::empty(); SLOT_COUNT],
        MEMORY_SIZE,
        SELF_PID,
    );

    assert_eq!(
        memory.add_object(PythonId(40), MEMORY_SIZE + 1),
        Err(ArrayPoolError::NoSpaceLeft)
    );
}

#[test]
fn test_add_bloc() {
    let mut memory = MemoryPool::from_uninit_slice(
        vec![MemorySlot::empty(); SLOT_COUNT],
        MEMORY_SIZE,
        SELF_PID,
    );

    assert_eq!(memory.add_object(PythonId(40), 150), Ok(0));
    assert_eq!(memory.add_object(PythonId(41), 50), Ok(150));
    assert_eq!(memory.add_object(PythonId(42), 5 * 1024), Ok(200));

    assert_eq!(
        memory.slots,
        vec![
            MemorySlot::with_object_id(PythonId(40), 150, SELF_PID),
            MemorySlot::with_object_id(PythonId(41), 50, SELF_PID),
            MemorySlot::with_object_id(PythonId(42), 5 * 1024, SELF_PID),
            MemorySlot::with_size(MEMORY_SIZE - 150 - 50 - (5 * 1024)),
        ]
    );
}

#[test]
fn test_add_single_huge_bloc() {
    let mut memory = MemoryPool::from_uninit_slice(
        vec![MemorySlot::empty(); SLOT_COUNT],
        MEMORY_SIZE,
        SELF_PID,
    );

    // Add bloc
    assert_eq!(memory.add_object(PythonId(42), MEMORY_SIZE), Ok(0));

    // Check we do not have space anymore
    assert_eq!(
        memory.add_object(PythonId(43), 1),
        Err(ArrayPoolError::NoSpaceLeft)
    );

    // Check inner content
    assert_eq!(
        memory.slots,
        vec![
            MemorySlot::with_object_id(PythonId(42), MEMORY_SIZE, SELF_PID),
            MemorySlot::empty(),
            MemorySlot::empty(),
            MemorySlot::empty(),
        ]
    );
}

#[test]
fn test_add_empty_bloc() {
    let mut memory = MemoryPool::from_uninit_slice(
        vec![MemorySlot::empty(); SLOT_COUNT],
        MEMORY_SIZE,
        SELF_PID,
    );

    // Add blocs
    assert_eq!(memory.add_object(PythonId(40), 0), Ok(0));
    assert_eq!(memory.add_object(PythonId(41), 0), Ok(0));
    assert_eq!(memory.add_object(PythonId(42), 0), Ok(0));
    assert_eq!(
        memory.slots,
        vec![
            MemorySlot::with_object_id(PythonId(40), 0, SELF_PID),
            MemorySlot::with_object_id(PythonId(41), 0, SELF_PID),
            MemorySlot::with_object_id(PythonId(42), 0, SELF_PID),
            MemorySlot::with_size(MEMORY_SIZE),
        ]
    );

    // Add final bloc
    assert_eq!(
        memory.add_object(PythonId(43), 0),
        Err(ArrayPoolError::NoFreeBlocLeft)
    );

    // Add bloc with data
    assert_eq!(memory.add_object(PythonId(44), MEMORY_SIZE), Ok(0));
    assert_eq!(
        memory.slots,
        vec![
            MemorySlot::with_object_id(PythonId(40), 0, SELF_PID),
            MemorySlot::with_object_id(PythonId(41), 0, SELF_PID),
            MemorySlot::with_object_id(PythonId(42), 0, SELF_PID),
            MemorySlot::with_object_id(PythonId(44), MEMORY_SIZE, SELF_PID),
        ]
    );

    // Check we cannot add anything more
    assert_eq!(
        memory.add_object(PythonId(43), 0),
        Err(ArrayPoolError::NoSpaceLeft)
    );
}

#[test]
fn test_detach_invalid_python_id() {
    let mut memory = MemoryPool::from_uninit_slice(
        vec![MemorySlot::empty(); SLOT_COUNT],
        MEMORY_SIZE,
        SELF_PID,
    );
    assert_eq!(
        memory.detach_object(PythonId(0)),
        Err(ArrayPoolError::InvalidPythonId)
    );
}

#[test]
fn test_detach_not_found() {
    let mut memory = MemoryPool::from_uninit_slice(
        vec![MemorySlot::empty(); SLOT_COUNT],
        MEMORY_SIZE,
        SELF_PID,
    );

    assert_eq!(
        memory.detach_object(PythonId(42)),
        Err(ArrayPoolError::ObjectNotFound(PythonId(42)))
    );
}

#[test]
fn test_add_and_detach() {
    let mut memory = MemoryPool::from_uninit_slice(
        vec![MemorySlot::empty(); SLOT_COUNT],
        MEMORY_SIZE,
        SELF_PID,
    );

    // Add
    assert!(memory.add_object(PythonId(40), 10).is_ok());
    assert_eq!(
        memory.slots,
        vec![
            MemorySlot::with_object_id(PythonId(40), 10, SELF_PID),
            MemorySlot::with_size(MEMORY_SIZE - 10),
            MemorySlot::empty(),
            MemorySlot::empty(),
        ]
    );

    // Detach
    assert_eq!(memory.detach_object(PythonId(40)), Ok(()));
    assert_eq!(memory.set_object_releasable(PythonId(40)), Ok(()));
    assert_eq!(
        memory.slots,
        vec![
            MemorySlot::with_size(MEMORY_SIZE),
            MemorySlot::empty(),
            MemorySlot::empty(),
            MemorySlot::empty(),
        ]
    );
}

#[test]
fn test_detach_elements() {
    let mut memory = MemoryPool::from_uninit_slice(
        vec![MemorySlot::empty(); SLOT_COUNT],
        MEMORY_SIZE,
        SELF_PID,
    );

    // Add
    assert!(memory.add_object(PythonId(40), 10).is_ok());
    assert!(memory.add_object(PythonId(41), 10).is_ok());
    assert!(memory.add_object(PythonId(42), 10).is_ok());

    // Detach middle one
    assert_eq!(memory.detach_object(PythonId(41)), Ok(()));
    assert_eq!(memory.set_object_releasable(PythonId(41)), Ok(()));
    assert_eq!(memory.info_of(PythonId(40)), Some(ObjectInfo::new(0, 10)));
    assert_eq!(memory.info_of(PythonId(42)), Some(ObjectInfo::new(20, 10)));
    assert_eq!(
        memory.slots,
        vec![
            MemorySlot::with_object_id(PythonId(40), 10, SELF_PID),
            MemorySlot::with_size(10),
            MemorySlot::with_object_id(PythonId(42), 10, SELF_PID),
            MemorySlot::with_size(MEMORY_SIZE - 10 - 10 - 10),
        ]
    );

    // Detach previous
    assert_eq!(memory.set_object_releasable(PythonId(40)), Ok(()));
    assert_eq!(memory.detach_object(PythonId(40)), Ok(()));
    assert_eq!(memory.info_of(PythonId(42)), Some(ObjectInfo::new(20, 10)));
    assert_eq!(
        memory.slots,
        vec![
            MemorySlot::with_size(20),
            MemorySlot::with_object_id(PythonId(42), 10, SELF_PID),
            MemorySlot::with_size(MEMORY_SIZE - 10 - 10 - 10),
            MemorySlot::empty(),
        ]
    );

    // Detach next
    assert_eq!(memory.set_object_releasable(PythonId(42)), Ok(()));
    assert_eq!(memory.detach_object(PythonId(42)), Ok(()));
    assert_eq!(
        memory.slots,
        vec![
            MemorySlot::with_size(MEMORY_SIZE),
            MemorySlot::empty(),
            MemorySlot::empty(),
            MemorySlot::empty(),
        ]
    );
}

#[test]
fn test_fill_holes() {
    let mut memory = MemoryPool::from_uninit_slice(
        vec![MemorySlot::empty(); SLOT_COUNT],
        MEMORY_SIZE,
        SELF_PID,
    );

    // Add
    assert!(memory.add_object(PythonId(40), 10).is_ok());
    assert!(memory.add_object(PythonId(41), 10).is_ok());
    assert!(memory.add_object(PythonId(42), 10).is_ok());

    // Detach 40 and 41
    assert_eq!(memory.detach_object(PythonId(40)), Ok(()));
    assert_eq!(memory.detach_object(PythonId(41)), Ok(()));
    assert_eq!(memory.set_object_releasable(PythonId(40)), Ok(()));
    assert_eq!(memory.set_object_releasable(PythonId(41)), Ok(()));
    assert_eq!(
        memory.slots,
        vec![
            MemorySlot::with_size(20),
            MemorySlot::with_object_id(PythonId(42), 10, SELF_PID),
            MemorySlot::with_size(MEMORY_SIZE - 10 - 10 - 10),
            MemorySlot::empty(),
        ]
    );

    // Insert new smaller array
    assert!(memory.add_object(PythonId(43), 15).is_ok());
    assert_eq!(
        memory.slots,
        vec![
            MemorySlot::with_object_id(PythonId(43), 15, SELF_PID),
            MemorySlot::with_size(5),
            MemorySlot::with_object_id(PythonId(42), 10, SELF_PID),
            MemorySlot::with_size(MEMORY_SIZE - 10 - 10 - 10),
        ]
    );

    assert!(memory.add_object(PythonId(44), 5).is_ok());
    assert_eq!(
        memory.slots,
        vec![
            MemorySlot::with_object_id(PythonId(43), 15, SELF_PID),
            MemorySlot::with_object_id(PythonId(44), 5, SELF_PID),
            MemorySlot::with_object_id(PythonId(42), 10, SELF_PID),
            MemorySlot::with_size(MEMORY_SIZE - 10 - 10 - 10),
        ]
    );
}

#[test]
fn test_info_of_invalid_python_id() {
    let memory = MemoryPool::from_uninit_slice(
        vec![MemorySlot::empty(); SLOT_COUNT],
        MEMORY_SIZE,
        SELF_PID,
    );
    assert_eq!(memory.info_of(PythonId(0)), None);
}

#[test]
fn test_info_of_missing_obj() {
    let memory = MemoryPool::from_uninit_slice(
        vec![MemorySlot::empty(); SLOT_COUNT],
        MEMORY_SIZE,
        SELF_PID,
    );
    assert_eq!(memory.info_of(PythonId(42)), None);
}

#[test]
fn test_info_of() {
    let mut memory = MemoryPool::from_uninit_slice(
        vec![MemorySlot::empty(); SLOT_COUNT],
        MEMORY_SIZE,
        SELF_PID,
    );
    let python_id = PythonId(42);

    assert_eq!(memory.info_of(python_id), None);

    assert!(memory.add_object(python_id, 10).is_ok());
    assert_eq!(memory.info_of(python_id), Some(ObjectInfo::new(0, 10)));

    assert!(memory.detach_object(python_id).is_ok());
    assert_eq!(memory.info_of(python_id), Some(ObjectInfo::new(0, 10)));

    assert!(memory.set_object_releasable(python_id).is_ok());
    assert_eq!(memory.info_of(python_id), None);
}

#[test]
fn test_attach_object_invalid_python_id() {
    let mut memory = MemoryPool::from_uninit_slice(
        vec![MemorySlot::empty(); SLOT_COUNT],
        MEMORY_SIZE,
        SELF_PID,
    );
    assert_eq!(
        memory.attach_object(PythonId(0)),
        Err(ArrayPoolError::InvalidPythonId)
    );
}

#[test]
fn test_attach_object_missing() {
    let mut memory = MemoryPool::from_uninit_slice(
        vec![MemorySlot::empty(); SLOT_COUNT],
        MEMORY_SIZE,
        SELF_PID,
    );
    assert_eq!(
        memory.attach_object(PythonId(40)),
        Err(ArrayPoolError::ObjectNotFound(PythonId(40)))
    );
}

#[test]
fn test_attach_object() {
    let python_id1 = PythonId(40);
    let python_id2 = PythonId(41);
    let mut memory = MemoryPool::from_uninit_slice(
        vec![MemorySlot::empty(); SLOT_COUNT],
        MEMORY_SIZE,
        SELF_PID,
    );

    assert!(memory.add_object(python_id1, 20).is_ok());
    assert!(memory.add_object(python_id2, 10).is_ok());

    // Attach multiple time object
    assert_eq!(memory.attach_object(python_id1), Ok(ObjectInfo::new(0, 20)));
    assert_eq!(
        memory.attach_object(python_id2),
        Ok(ObjectInfo::new(20, 10))
    );

    assert_eq!(memory.attach_object(python_id1), Ok(ObjectInfo::new(0, 20)));
    assert_eq!(
        memory.attach_object(python_id2),
        Ok(ObjectInfo::new(20, 10))
    );

    assert_eq!(memory.attach_object(python_id1), Ok(ObjectInfo::new(0, 20)));

    // Check memory
    assert_eq!(
        memory.slots,
        vec![
            MemorySlot::with_object_id(python_id1, 20, SELF_PID).set_refcount(4),
            MemorySlot::with_object_id(python_id2, 10, SELF_PID).set_refcount(3),
            MemorySlot::with_size(MEMORY_SIZE - 20 - 10),
            MemorySlot::empty(),
        ]
    );

    // Start detaching
    assert_eq!(memory.set_object_releasable(python_id1), Ok(()));
    assert_eq!(memory.detach_object(python_id1), Ok(()));
    assert_eq!(memory.detach_object(python_id1), Ok(()));
    assert_eq!(memory.detach_object(python_id1), Ok(()));
    assert_eq!(memory.detach_object(python_id1), Ok(()));
    assert_eq!(
        memory.detach_object(python_id1),
        Err(ArrayPoolError::ObjectNotFound(python_id1))
    );

    assert_eq!(memory.set_object_releasable(python_id2), Ok(()));
    assert_eq!(memory.detach_object(python_id2), Ok(()));
    assert_eq!(memory.detach_object(python_id2), Ok(()));
    assert_eq!(memory.detach_object(python_id2), Ok(()));
    assert_eq!(
        memory.detach_object(python_id2),
        Err(ArrayPoolError::ObjectNotFound(python_id2))
    );
}

#[test]
fn test_dump() {
    let mut memory = MemoryPool::from_uninit_slice(
        vec![MemorySlot::empty(); SLOT_COUNT],
        MEMORY_SIZE,
        SELF_PID,
    );

    // Add
    memory.add_object(PythonId(40), 10).unwrap();
    memory.add_object(PythonId(41), 10).unwrap();
    memory.set_object_releasable(PythonId(41)).unwrap();
    memory.add_object(PythonId(42), 10).unwrap();

    // Dump
    assert_eq!(
        memory.dump(),
        "SLOT ID: 0: pid: 40, recount: 1, flag: 0\n\
         SLOT ID: 1: pid: 41, recount: 1, flag: 1\n\
         SLOT ID: 2: pid: 42, recount: 1, flag: 0"
    );
}

#[test]
fn test_lifecycle_roundtrip() {
    // add; n attaches; n detaches; mark releasable; final detach frees
    let mut memory = MemoryPool::from_uninit_slice(
        vec![MemorySlot::empty(); SLOT_COUNT],
        MEMORY_SIZE,
        SELF_PID,
    );
    let python_id = PythonId(7);

    assert!(memory.add_object(python_id, 100).is_ok());
    for _ in 0..3 {
        assert!(memory.attach_object(python_id).is_ok());
    }
    for _ in 0..3 {
        assert_eq!(memory.detach_object(python_id), Ok(()));
    }
    // back to the creator reference only; still allocated
    assert_eq!(memory.info_of(python_id), Some(ObjectInfo::new(0, 100)));
    assert_eq!(memory.set_object_releasable(python_id), Ok(()));
    // marked, but the creator still holds its reference
    assert_eq!(memory.info_of(python_id), Some(ObjectInfo::new(0, 100)));
    assert_eq!(memory.detach_object(python_id), Ok(()));
    // freed
    assert_eq!(memory.info_of(python_id), None);
}

#[test]
fn test_attach_keeps_locations_stable() {
    let mut memory = MemoryPool::from_uninit_slice(
        vec![MemorySlot::empty(); SLOT_COUNT],
        MEMORY_SIZE,
        SELF_PID,
    );

    assert!(memory.add_object(PythonId(40), 30).is_ok());
    assert!(memory.add_object(PythonId(41), 70).is_ok());

    let before_40 = memory.info_of(PythonId(40));
    let before_41 = memory.info_of(PythonId(41));
    assert_eq!(before_40, Some(ObjectInfo::new(0, 30)));
    assert_eq!(before_41, Some(ObjectInfo::new(30, 70)));

    // repeated attaches report the same location and move nothing
    assert_eq!(memory.attach_object(PythonId(41)), Ok(ObjectInfo::new(30, 70)));
    assert_eq!(memory.attach_object(PythonId(41)), Ok(ObjectInfo::new(30, 70)));
    assert_eq!(memory.info_of(PythonId(40)), before_40);
    assert_eq!(memory.info_of(PythonId(41)), before_41);
}

#[test]
fn test_cross_pid_attach_frees_on_last_detach() {
    // a blob attached from another process is freed by the plain detaches,
    // without any explicit mark
    let mut memory = MemoryPool::from_uninit_slice(
        vec![MemorySlot::empty(); SLOT_COUNT],
        MEMORY_SIZE,
        SELF_PID,
    );
    let python_id = PythonId(9);

    assert!(memory.add_object(python_id, 40).is_ok());

    // simulate the attach of another process
    let mut other = MemoryPool::new(std::mem::take(&mut memory.slots), SELF_PID + 1);
    assert_eq!(other.attach_object(python_id), Ok(ObjectInfo::new(0, 40)));
    let mut memory = MemoryPool::new(std::mem::take(&mut other.slots), SELF_PID);

    assert_eq!(memory.detach_object(python_id), Ok(()));
    assert_eq!(memory.info_of(python_id), Some(ObjectInfo::new(0, 40)));
    assert_eq!(memory.detach_object(python_id), Ok(()));
    assert_eq!(memory.info_of(python_id), None);
}

#[test]
fn test_wf_check() {
    let memory = MemoryPool::from_uninit_slice(
        vec![MemorySlot::empty(); SLOT_COUNT],
        MEMORY_SIZE,
        SELF_PID,
    );
    assert!(memory.wf_check());

    let mut memory = memory;
    assert!(memory.add_object(PythonId(40), 10).is_ok());
    assert!(memory.add_object(PythonId(41), 20).is_ok());
    assert!(memory.wf_check());

    // two slots sharing a handle
    let broken = MemoryPool::new(
        vec![
            MemorySlot::with_object_id(PythonId(40), 10, SELF_PID),
            MemorySlot::with_object_id(PythonId(40), 20, SELF_PID),
        ],
        SELF_PID,
    );
    assert!(!broken.wf_check());

    // a free slot still carrying a reference count
    let broken = MemoryPool::new(
        vec![MemorySlot::with_size(30).set_refcount(2)],
        SELF_PID,
    );
    assert!(!broken.wf_check());

    // two free neighbours that were never coalesced
    let broken = MemoryPool::new(
        vec![
            MemorySlot::with_size(10),
            MemorySlot::with_size(20),
            MemorySlot::with_object_id(PythonId(40), 5, SELF_PID),
        ],
        SELF_PID,
    );
    assert!(!broken.wf_check());
}

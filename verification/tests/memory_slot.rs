use pyarraypool::memory_info::MemorySlot;
use pyarraypool::memory_info::PythonId;
use pyarraypool::memory_info::FLAG_MEMSLOT_TRANSFERED;

const SELF_PID: u32 = 7777;

#[test]
fn test_attributes() {
    let mut slot = MemorySlot::empty();
    assert!(slot.is_free());

    slot.python_id = PythonId(42);
    assert!(!slot.is_free());
}

#[test]
fn test_releasable() {
    let mut slot = MemorySlot::with_object_id(PythonId(12), 150, SELF_PID);
    assert!(!slot.is_releasable());

    // Detach from main process
    slot.refcount = 0;
    assert!(!slot.is_releasable());

    // Attach and detach again from main process
    slot.refcount = 1;
    assert!(!slot.is_releasable());
    slot.refcount = 0;
    assert!(!slot.is_releasable());

    // Attach from sub process
    slot.refcount = 1;
    slot.set_transfered();
    assert!(!slot.is_releasable());

    // Release from sub process => releasable
    slot.refcount = 0;
    assert!(slot.is_releasable());
}

#[test]
fn test_split_block() {
    let python_id = PythonId(42);
    let refcount = 4;

    let slot = MemorySlot::with_object_id(python_id, 200, SELF_PID)
        .set_refcount(refcount)
        .set_transfered();

    assert_eq!(
        slot.split_block(50),
        (
            MemorySlot {
                python_id,
                size: 50,
                refcount,
                source_pid: SELF_PID,
                flags: FLAG_MEMSLOT_TRANSFERED,
            },
            MemorySlot {
                python_id: PythonId(0),
                size: 150,
                refcount: 0,
                source_pid: 0,
                flags: 0,
            },
        )
    );
    assert_eq!(
        slot.split_block(0),
        (
            MemorySlot {
                python_id,
                size: 0,
                refcount,
                source_pid: SELF_PID,
                flags: FLAG_MEMSLOT_TRANSFERED,
            },
            MemorySlot {
                python_id: PythonId(0),
                size: 200,
                refcount: 0,
                source_pid: 0,
                flags: 0,
            },
        )
    );
    assert_eq!(
        slot.split_block(199),
        (
            MemorySlot {
                python_id,
                size: 199,
                refcount,
                source_pid: SELF_PID,
                flags: FLAG_MEMSLOT_TRANSFERED,
            },
            MemorySlot {
                python_id: PythonId(0),
                size: 1,
                refcount: 0,
                source_pid: 0,
                flags: 0,
            },
        )
    );
}

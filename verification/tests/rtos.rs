use bhf::rtos::{
    bus_can_deliver, bus_receive, counts_attempts, deliver_body, message_queue_create,
    message_queue_receive, message_queue_send, mmio_key, mmio_mapped, mmio_window, page_size_of,
    pipe_create, queue_receive, queue_send, release, semaphore_create, semaphore_take, Errno,
    HandleReply, MmioStep, MmioWindow, Mode, QueueTable, Reply, Rtos, CFE_MSG_BUF_LEN,
    CFE_SB_NO_MESSAGE, CFE_SUCCESS, DELIVERY_CAP, MSG_FILL_CAP, PD_FALSE, PD_TRUE, VX_ERROR, VX_OK,
    XQUEUE_CAP, XQUEUE_HANDLE_BASE,
};

fn give(code: i32, errno: Errno, logged: Option<i64>) -> Reply {
    Reply::Give { code, errno, logged }
}

#[test]
fn a_channel_delivers_up_to_its_cap() {
    let delivered = (0..1000)
        .filter(|n| deliver_body(Mode::FuzzDriven, *n, true, 64).is_some())
        .count();
    assert_eq!(delivered, DELIVERY_CAP);
    assert_eq!(deliver_body(Mode::FuzzDriven, 255, true, 64), Some(64));
    assert_eq!(deliver_body(Mode::FuzzDriven, 256, true, 64), None);
    assert_eq!(deliver_body(Mode::Empty, 0, true, 64), None);
    assert!(!counts_attempts(Mode::Empty));
    assert!(counts_attempts(Mode::Rng));
}

#[test]
fn a_receive_fills_no_more_than_the_buffer() {
    assert_eq!(deliver_body(Mode::Rng, 0, false, 64), Some(0));
    assert_eq!(deliver_body(Mode::Rng, 0, true, 0), Some(0));
    assert_eq!(deliver_body(Mode::Rng, 0, true, MSG_FILL_CAP), Some(65536));
    assert_eq!(deliver_body(Mode::Rng, 0, true, MSG_FILL_CAP + 1), Some(65536));
}

#[test]
fn only_an_audit_does_not_fake() {
    assert!(!Mode::Audit.is_faking());
    assert!(Mode::Empty.is_faking());
    assert!(Mode::Rng.is_faking());
    assert!(Mode::FuzzDriven.is_faking());
}

#[test]
fn message_queues_are_answered_by_the_mode() {
    assert_eq!(
        message_queue_create(Mode::FuzzDriven, true),
        HandleReply::Handle { logged: true }
    );
    assert_eq!(message_queue_create(Mode::Audit, true), HandleReply::Real);
    assert_eq!(
        message_queue_create(Mode::Audit, false),
        HandleReply::Handle { logged: false }
    );
    assert_eq!(
        message_queue_receive(Mode::FuzzDriven, Some(12), true),
        give(12, Errno::Keep, Some(12))
    );
    assert_eq!(
        message_queue_receive(Mode::Empty, None, true),
        give(VX_ERROR, Errno::TimedOut, None)
    );
    assert_eq!(message_queue_receive(Mode::Audit, None, true), Reply::Real);
    assert_eq!(
        message_queue_receive(Mode::Audit, None, false),
        give(VX_ERROR, Errno::NoSystem, None)
    );
    assert_eq!(
        message_queue_send(Mode::Rng, true),
        give(VX_OK, Errno::Keep, Some(0))
    );
    assert_eq!(message_queue_send(Mode::Audit, true), Reply::Real);
    assert_eq!(
        message_queue_send(Mode::Audit, false),
        give(VX_OK, Errno::Keep, None)
    );
    assert_eq!(release(Mode::Empty, true), give(VX_OK, Errno::Keep, None));
    assert_eq!(release(Mode::Audit, true), Reply::Real);
}

#[test]
fn semaphores_let_the_guarded_section_run() {
    assert_eq!(
        semaphore_take(Mode::FuzzDriven, true),
        give(VX_OK, Errno::Keep, Some(0))
    );
    assert_eq!(
        semaphore_take(Mode::Empty, true),
        give(VX_ERROR, Errno::TimedOut, None)
    );
    assert_eq!(semaphore_take(Mode::Audit, true), Reply::Real);
    assert_eq!(
        semaphore_take(Mode::Audit, false),
        give(VX_OK, Errno::Keep, None)
    );
    assert_eq!(
        semaphore_create(Mode::Audit),
        HandleReply::Handle { logged: false }
    );
    assert_eq!(
        semaphore_create(Mode::Empty),
        HandleReply::Handle { logged: true }
    );
}

#[test]
fn a_queue_is_found_by_its_handle() {
    let mut table = QueueTable::new();
    let first = table.create(Mode::FuzzDriven, 16).unwrap();
    let second = table.create(Mode::FuzzDriven, 4).unwrap();
    assert_eq!(first, XQUEUE_HANDLE_BASE);
    assert_eq!(second, XQUEUE_HANDLE_BASE + 1);
    assert_eq!(table.item_size(first), Some(16));
    assert_eq!(table.item_size(second), Some(4));
    assert_eq!(table.item_size(second + 1), None);
    assert_eq!(table.item_size(0), None);
    assert_eq!(table.create(Mode::Audit, 8), None);
    assert_eq!(table.item_size(second + 1), None);
}

#[test]
fn a_full_table_remembers_no_more_queues() {
    let mut table = QueueTable::new();
    for n in 0..XQUEUE_CAP {
        assert_eq!(table.create(Mode::Rng, n), Some(XQUEUE_HANDLE_BASE + n));
    }
    assert_eq!(table.create(Mode::Rng, 1), None);
    assert_eq!(table.item_size(XQUEUE_HANDLE_BASE + 255), Some(255));
}

#[test]
fn items_of_unknown_queues_are_not_delivered() {
    assert_eq!(
        queue_receive(Mode::FuzzDriven, true, Some(16)),
        give(PD_TRUE, Errno::Keep, Some(16))
    );
    let none = give(PD_FALSE, Errno::Keep, None);
    assert_eq!(queue_receive(Mode::FuzzDriven, false, Some(16)), none);
    assert_eq!(queue_receive(Mode::FuzzDriven, true, None), none);
    assert_eq!(queue_receive(Mode::Audit, true, Some(16)), none);
    assert_eq!(queue_send(), give(PD_TRUE, Errno::Keep, None));
}

#[test]
fn the_bus_delivers_where_it_is_faked_and_asked() {
    assert_eq!(
        bus_receive(Mode::FuzzDriven, true, Some(CFE_MSG_BUF_LEN)),
        give(CFE_SUCCESS, Errno::Keep, Some(4096))
    );
    let none = give(CFE_SB_NO_MESSAGE, Errno::Keep, None);
    assert_eq!(bus_receive(Mode::FuzzDriven, true, None), none);
    assert_eq!(bus_receive(Mode::FuzzDriven, false, Some(1)), none);
    assert_eq!(bus_receive(Mode::Audit, true, Some(1)), none);
    assert!(bus_can_deliver(Mode::Empty, true));
    assert!(!bus_can_deliver(Mode::Empty, false));
    assert_eq!(pipe_create(Mode::Rng), give(CFE_SUCCESS, Errno::Keep, Some(0)));
    assert_eq!(pipe_create(Mode::Audit), give(CFE_SUCCESS, Errno::Keep, None));
}

#[test]
fn a_window_is_made_of_whole_pages() {
    assert_eq!(page_size_of(16384), 16384);
    assert_eq!(page_size_of(0), 4096);
    assert_eq!(page_size_of(-1), 4096);
    assert_eq!(mmio_window(0, 4, 4096), None);
    assert_eq!(mmio_window(0x4000_0000, 0, 4096), None);
    assert_eq!(
        mmio_window(0x4000_0010, 4, 4096),
        Some(MmioWindow { base: 0x4000_0000, len: 4096 })
    );
    assert_eq!(
        mmio_window(0x4000_0ffe, 4, 4096),
        Some(MmioWindow { base: 0x4000_0000, len: 8192 })
    );
    assert_eq!(
        mmio_window(0x4000_0000, 4096, 4096),
        Some(MmioWindow { base: 0x4000_0000, len: 4096 })
    );
    assert_eq!(
        mmio_window(0x4000_0000, 4097, 4096),
        Some(MmioWindow { base: 0x4000_0000, len: 8192 })
    );
}

#[test]
fn a_mapping_elsewhere_is_undone() {
    assert_eq!(mmio_mapped(4096, None), MmioStep::Fail);
    assert_eq!(mmio_mapped(4096, Some(8192)), MmioStep::Undo);
    assert_eq!(mmio_mapped(4096, Some(4096)), MmioStep::Fill);
}

#[test]
fn windows_have_keys_of_their_own() {
    assert_eq!(mmio_key(0x4000_0000), b"mmio:0x40000000".to_vec());
    assert_eq!(mmio_key(0xF_FFFF_F000), b"mmio:0xffffff000".to_vec());
    assert_eq!(mmio_key(0x12_3456_7890_0000), b"mmio:0x12345678900000".to_vec());
    assert_ne!(mmio_key(0x4000_0000), mmio_key(0x4000_1000));
    assert_ne!(mmio_key(0x1_0000_0000), mmio_key(0x10_0000_0000));
    assert_ne!(mmio_key(0x12_3456_7890_0000), mmio_key(0x12_3456_7891_0000));
}

#[test]
fn the_listing_names_every_function() {
    assert_eq!(Rtos.name(), "rtos");
    assert_eq!(Rtos.intercepts().len(), 19);
    assert!(Rtos.intercepts().contains(&"bhf_shim_mmio_fill"));
    assert!(Rtos.is_enabled());
    assert!(Rtos.describe().contains("fixed-address MMIO"));
}

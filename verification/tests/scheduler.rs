use game_render::access::AccessFlags;
use game_render::access_table::AccessTable;
use game_render::accesses::Resource;
use game_render::scheduler::{Barrier, Queue, Scheduler, Step};

struct TestNode {
    #[allow(dead_code)]
    id: u64,
    resources: Vec<Resource<u64>>,
}

fn table(count: u64) -> AccessTable<u64> {
    let mut table = AccessTable::new();
    for index in 0..count {
        table.set_access(index, AccessFlags::empty());
    }
    table
}

fn schedule(resources: &mut AccessTable<u64>, nodes: &[TestNode]) -> Vec<Step<usize, u64>> {
    let lists: Vec<&[Resource<u64>]> = nodes.iter().map(|n| n.resources.as_slice()).collect();
    let mut scheduler = Scheduler::new();
    scheduler.schedule(resources, &lists)
}

fn res(id: u64, access: AccessFlags) -> Resource<u64> {
    Resource { id, access }
}

#[test]
fn schedule_simple() {
    let mut resources = table(2);
    let nodes = vec![
        TestNode { id: 0, resources: vec![res(0, AccessFlags::transfer_write())] },
        TestNode { id: 1, resources: vec![res(1, AccessFlags::transfer_write())] },
        TestNode { id: 2, resources: vec![res(0, AccessFlags::shader_read())] },
        TestNode {
            id: 3,
            resources: vec![res(0, AccessFlags::shader_read()), res(1, AccessFlags::shader_read())],
        },
    ];
    let steps = schedule(&mut resources, &nodes);
    assert_eq!(
        steps,
        [
            Step::Barrier(Barrier {
                resource: 0,
                src_access: AccessFlags::empty(),
                dst_access: AccessFlags::transfer_write()
            }),
            Step::Barrier(Barrier {
                resource: 1,
                src_access: AccessFlags::empty(),
                dst_access: AccessFlags::transfer_write()
            }),
            Step::Node(0),
            Step::Node(1),
            Step::Barrier(Barrier {
                resource: 0,
                src_access: AccessFlags::transfer_write(),
                dst_access: AccessFlags::shader_read(),
            }),
            Step::Node(2),
            Step::Barrier(Barrier {
                resource: 1,
                src_access: AccessFlags::transfer_write(),
                dst_access: AccessFlags::shader_read(),
            }),
            Step::Node(3)
        ]
    );
}

#[test]
fn schedule_read_and_write() {
    let mut resources = table(2);
    let nodes = vec![
        TestNode { id: 0, resources: vec![res(0, AccessFlags::transfer_write())] },
        TestNode {
            id: 1,
            resources: vec![res(0, AccessFlags::transfer_read()), res(1, AccessFlags::transfer_write())],
        },
        TestNode { id: 2, resources: vec![res(1, AccessFlags::shader_read())] },
    ];

    let steps = schedule(&mut resources, &nodes);
    assert_eq!(
        steps,
        [
            Step::Barrier(Barrier {
                resource: 0,
                src_access: AccessFlags::empty(),
                dst_access: AccessFlags::transfer_write(),
            }),
            Step::Node(0),
            Step::Barrier(Barrier {
                resource: 0,
                src_access: AccessFlags::transfer_write(),
                dst_access: AccessFlags::transfer_read(),
            }),
            Step::Barrier(Barrier {
                resource: 1,
                src_access: AccessFlags::empty(),
                dst_access: AccessFlags::transfer_write(),
            }),
            Step::Node(1),
            Step::Barrier(Barrier {
                resource: 1,
                src_access: AccessFlags::transfer_write(),
                dst_access: AccessFlags::shader_read(),
            }),
            Step::Node(2),
        ]
    );
}

#[test]
fn schedule_write_after_write() {
    let mut resources = table(1);
    let nodes = vec![
        TestNode { id: 0, resources: vec![res(0, AccessFlags::transfer_write())] },
        TestNode { id: 1, resources: vec![res(0, AccessFlags::transfer_write())] },
        TestNode { id: 2, resources: vec![res(0, AccessFlags::transfer_write())] },
    ];

    let steps = schedule(&mut resources, &nodes);
    assert_eq!(
        steps,
        [
            Step::Barrier(Barrier {
                resource: 0,
                src_access: AccessFlags::empty(),
                dst_access: AccessFlags::transfer_write()
            }),
            Step::Node(0),
            Step::Barrier(Barrier {
                resource: 0,
                src_access: AccessFlags::transfer_write(),
                dst_access: AccessFlags::transfer_write()
            }),
            Step::Node(1),
            Step::Barrier(Barrier {
                resource: 0,
                src_access: AccessFlags::transfer_write(),
                dst_access: AccessFlags::transfer_write()
            }),
            Step::Node(2),
        ]
    );
}

#[test]
fn schedule_skips_repeated_read() {
    let mut resources = table(1);
    resources.set_access(0, AccessFlags::shader_read());
    let nodes = vec![
        TestNode { id: 0, resources: vec![res(0, AccessFlags::shader_read())] },
        TestNode { id: 1, resources: vec![res(0, AccessFlags::shader_read())] },
    ];
    let steps = schedule(&mut resources, &nodes);
    assert_eq!(steps, [Step::Node(0), Step::Node(1)]);
    assert!(steps.iter().all(|s| !s.is_barrier()));
}

#[test]
fn schedule_final_access_is_last_use() {
    let mut resources = table(1);
    let nodes = vec![
        TestNode { id: 0, resources: vec![res(0, AccessFlags::transfer_write())] },
        TestNode { id: 1, resources: vec![res(0, AccessFlags::index())] },
    ];
    schedule(&mut resources, &nodes);
    assert_eq!(resources.access(0), AccessFlags::index());
}

#[test]
fn queue_push_take() {
    let mut queue = Queue::new_in(4);

    queue.push(0);
    queue.push(1);
    let sl0 = queue.take_and_advance();
    queue.push(2);
    queue.push(3);
    let sl1 = queue.take_and_advance();

    assert_eq!(sl0, [0, 1]);
    assert_eq!(sl1, [2, 3]);
}

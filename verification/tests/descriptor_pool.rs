use game_render::backend::{DescriptorBinding, DescriptorType, ShaderStages};
use game_render::descriptor_pool::{
    pool_descriptor, resource_count, DescriptorPoolBucket, DescriptorSetResourceCount,
    MAX_POOL_SIZE,
};

fn binding(binding: u32, kind: DescriptorType, count: u32) -> DescriptorBinding {
    DescriptorBinding {
        binding,
        visibility: ShaderStages { bits: 1 },
        kind,
        count,
    }
}

#[test]
fn descriptor_resource_count_sums_each_kind() {
    let count = resource_count(&[
        binding(0, DescriptorType::Uniform, 1),
        binding(1, DescriptorType::Texture, 4),
        binding(2, DescriptorType::Uniform, 2),
        binding(3, DescriptorType::Sampler, 1),
    ]);
    assert_eq!(
        count,
        DescriptorSetResourceCount {
            uniform_buffers: 3,
            storage_buffers: 0,
            samplers: 1,
            sampled_textures: 4,
        }
    );
    assert_eq!(resource_count(&[]), DescriptorSetResourceCount::default());
}

#[test]
fn descriptor_pool_limits_scale_with_sets() {
    let count = DescriptorSetResourceCount {
        uniform_buffers: 1,
        storage_buffers: 2,
        samplers: 3,
        sampled_textures: 4,
    };
    let d = pool_descriptor(count, 8);
    assert_eq!(d.max_sets, 8);
    assert_eq!(d.max_uniform_buffers, 8);
    assert_eq!(d.max_storage_buffers, 16);
    assert_eq!(d.max_samplers, 24);
    assert_eq!(d.max_sampled_images, 32);
}

#[test]
fn descriptor_pool_bucket_grows_pools_up_to_the_limit() {
    let mut bucket: DescriptorPoolBucket<&'static str> = DescriptorPoolBucket::new();
    let sizes: Vec<u32> = (0..8).map(|_| bucket.take_pool_size()).collect();
    assert_eq!(sizes, [1, 2, 4, 8, 16, 32, 32, 32]);
    assert_eq!(MAX_POOL_SIZE, 32);
}

#[test]
fn descriptor_pool_bucket_uses_first_free_pool_and_drops_drained_pools() {
    let mut bucket: DescriptorPoolBucket<&'static str> = DescriptorPoolBucket::new();
    assert_eq!(bucket.free_pool_from(0), None);

    // A one-set pool is full right away.
    let size = bucket.take_pool_size();
    let first = bucket.add_pool("first", size);
    assert_eq!(first, 0);
    assert_eq!(bucket.free_pool_from(0), None);

    let size = bucket.take_pool_size();
    let second = bucket.add_pool("second", size);
    assert_eq!(second, 1);
    assert_eq!(bucket.free_pool_from(0), Some(1));
    assert_eq!(*bucket.pool(1), "second");
    bucket.note_allocated(1);
    assert_eq!(bucket.free_pool_from(0), None);

    // The full first pool is dropped once its set comes back.
    assert_eq!(bucket.dealloc(first), Some("first"));
    // The second pool keeps one set out, so it stays.
    assert_eq!(bucket.dealloc(second), None);
    assert_eq!(bucket.dealloc(second), Some("second"));
}

#[test]
fn descriptor_pool_bucket_reuses_the_most_recently_dropped_slot() {
    let mut bucket: DescriptorPoolBucket<&'static str> = DescriptorPoolBucket::new();
    // One-set pools are full as soon as they are added.
    assert_eq!(bucket.add_pool("a", 1), 0);
    assert_eq!(bucket.add_pool("b", 1), 1);
    assert_eq!(bucket.add_pool("c", 1), 2);
    assert_eq!(bucket.dealloc(0), Some("a"));
    assert_eq!(bucket.dealloc(2), Some("c"));
    assert_eq!(bucket.add_pool("d", 1), 2);
    assert_eq!(bucket.add_pool("e", 1), 0);
    assert_eq!(bucket.add_pool("f", 1), 3);
    assert_eq!(*bucket.pool(2), "d");
}

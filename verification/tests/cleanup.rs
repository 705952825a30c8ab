use game_render::cleanup::{LiveSet, Registry};
use game_render::commands::{Command, DescriptorSetResource, RawTextureView};
use game_render::resources::RefCount;
use game_render::retain::DeletionEvent;

fn table(n: usize) -> Vec<Option<RefCount>> {
    (0..n).map(|_| Some(RefCount::new())).collect()
}

fn view(texture: usize) -> RawTextureView {
    RawTextureView { texture, base_mip_level: 0, mip_levels: 1 }
}

fn registry() -> Registry {
    let mut buffers = table(4);
    // Buffer 2 is also referenced elsewhere.
    buffers[2].as_mut().unwrap().increment();
    Registry {
        buffers,
        textures: table(4),
        samplers: table(2),
        pipelines: table(2),
        layouts: table(2),
        sets: vec![
            None,
            Some(LiveSet {
                layout: 0,
                bindings: vec![
                    DescriptorSetResource::UniformBuffer(1),
                    DescriptorSetResource::StorageBuffer(2),
                    DescriptorSetResource::SampledTexture(vec![view(0), view(3)]),
                    DescriptorSetResource::Sampler(0),
                ],
            }),
        ],
    }
}

fn describe(cmds: &[Command]) -> Vec<String> {
    cmds.iter()
        .map(|c| match c {
            Command::DestoryBuffer(id) => format!("buffer {id}"),
            Command::DestroyTexture(id) => format!("texture {id}"),
            Command::DestroyDescriptorSet(id) => format!("set {id}"),
            other => format!("{other:?}"),
        })
        .collect()
}

#[test]
fn releasing_a_set_cascades() {
    let mut r = registry();
    let cmds = r.cleanup(vec![DeletionEvent::DescriptorSet(1)]).unwrap();
    assert_eq!(describe(&cmds), vec!["set 1", "buffer 1", "texture 0", "texture 3"]);
    assert!(r.sets[1].is_none());
    assert!(r.buffers[1].is_none());
    // Buffer 2 keeps one reference and stays.
    assert!(r.buffers[2].is_some());
    assert!(r.textures[0].is_none() && r.textures[3].is_none() && r.textures[1].is_some());
    assert!(r.samplers[0].is_none());
    // Layout 0 lost its last reference; the deletion is reported under the id of the set,
    // so the entry with the set's id goes.
    assert!(r.layouts[0].is_some());
    assert!(r.layouts[1].is_none());
}

#[test]
fn plain_events() {
    let mut r = registry();
    let cmds = r
        .cleanup(vec![
            DeletionEvent::Pipeline(0),
            DeletionEvent::Buffer(3),
            DeletionEvent::Texture(9),
            DeletionEvent::DescriptorSetLayout(0),
            DeletionEvent::Sampler(1),
        ])
        .unwrap();
    assert_eq!(describe(&cmds), vec!["buffer 3", "texture 9"]);
    assert!(r.pipelines[0].is_none() && r.pipelines[1].is_some());
    assert!(r.buffers[3].is_none());
    assert!(r.layouts[0].is_none());
    assert!(r.samplers[1].is_none());
    assert!(r.cleanup(Vec::new()).unwrap().is_empty());
}

#[test]
fn missing_set_fails() {
    let mut r = registry();
    assert!(r.cleanup(vec![DeletionEvent::DescriptorSet(0)]).is_none());
    let mut r = registry();
    assert!(r.cleanup(vec![DeletionEvent::DescriptorSet(1), DeletionEvent::DescriptorSet(1)]).is_none());
}

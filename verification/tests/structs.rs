use raytracer::renderer::{RenderOptions, Renderer};

#[test]
fn renderer_holds_its_options() {
    let options = RenderOptions {
        reflect_depth: 1,
        refract_depth: 2,
        shadow_samples: 3,
        gloss_samples: 4,
        pixel_samples: 5,
    };
    let renderer = Renderer { tasks: 2, options: options };
    let copy = renderer;
    assert_eq!(copy.tasks, 2);
    assert_eq!(copy.options.pixel_samples, 5);
    assert_eq!(copy.options.refract_depth, 2);
}

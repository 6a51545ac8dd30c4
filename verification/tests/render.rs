use icon_gen::files::{set_files, Content, WEBMANIFEST};
use icon_gen::render::{
    generate_ico, is_moderate_transform, plain_set_file_bytes, rasterize, render_plain_png,
    render_png, render_tree, set_file_bytes, IcoBuilder, IcoError, RenderError, SetFileError,
};

const RED: &str = "<svg xmlns=\"http://www.w3.org/2000/svg\" width=\"10\" height=\"20\">\
                   <rect width=\"10\" height=\"10\" fill=\"#ff0000\"/></svg>";

fn fit(size: usvg::Size, side: u32) -> tiny_skia::Transform {
    tiny_skia::Transform::from_scale(side as f32 / size.width(), side as f32 / size.height())
}

#[test]
fn a_drawing_is_rendered_at_the_size_asked_for() {
    let png = render_png(RED, 32, &fit).unwrap();
    let pixmap = tiny_skia::Pixmap::decode_png(&png).unwrap();
    assert_eq!((pixmap.width(), pixmap.height()), (32, 32));
    let top = pixmap.pixel(16, 4).unwrap();
    assert_eq!((top.red(), top.green(), top.blue(), top.alpha()), (255, 0, 0, 255));
    let bottom = pixmap.pixel(16, 28).unwrap();
    assert_eq!(bottom.alpha(), 0);
}

#[test]
fn the_transform_of_the_caller_is_used() {
    let plain = |_: usvg::Size, _: u32| tiny_skia::Transform::identity();
    let png = render_png(RED, 32, &plain).unwrap();
    let pixmap = tiny_skia::Pixmap::decode_png(&png).unwrap();
    assert_eq!(pixmap.pixel(5, 5).unwrap().alpha(), 255);
    assert_eq!(pixmap.pixel(16, 4).unwrap().alpha(), 0);
}

#[test]
fn the_size_of_the_drawing_is_handed_to_the_caller() {
    let checked = |size: usvg::Size, side: u32| {
        assert_eq!((size.width(), size.height(), side), (10.0, 20.0, 16));
        fit(size, side)
    };
    assert!(render_png(RED, 16, &checked).is_ok());
}

#[test]
fn moderate_transforms_are_told_from_others() {
    for (sx, ky, kx, sy, tx, ty, moderate) in [
        (1.0, 0.0, 0.0, 1.0, 0.0, 0.0, true),
        (63.5, -63.5, 63.5, -63.5, 4095.5, -4095.5, true),
        (64.0, 0.0, 0.0, 1.0, 0.0, 0.0, false),
        (-64.0, 0.0, 0.0, 1.0, 0.0, 0.0, false),
        (1.0, 64.0, 0.0, 1.0, 0.0, 0.0, false),
        (1.0, 0.0, 64.0, 1.0, 0.0, 0.0, false),
        (1.0, 0.0, 0.0, 1e9, 0.0, 0.0, false),
        (1.0, 0.0, 0.0, 1.0, 4096.0, 0.0, false),
        (1.0, 0.0, 0.0, 1.0, 0.0, -4096.0, false),
        (f32::INFINITY, 0.0, 0.0, 1.0, 0.0, 0.0, false),
        (f32::NAN, 0.0, 0.0, 1.0, 0.0, 0.0, true),
    ] {
        let transform = tiny_skia::Transform::from_row(sx, ky, kx, sy, tx, ty);
        assert_eq!(is_moderate_transform(&transform), moderate, "{transform:?}");
    }
}

#[test]
fn plain_drawings_are_rendered_like_others() {
    for side in [0, 1, 16, 48, 512] {
        let plain = render_plain_png(RED, side, &fit).unwrap();
        match render_png(RED, side, &fit) {
            Ok(png) => assert_eq!(plain.unwrap(), png),
            Err(e) => assert_eq!(plain.unwrap_err().context(), e.context()),
        }
    }
    for f in set_files() {
        let plain = plain_set_file_bytes(RED, f.content, &fit).unwrap().unwrap();
        assert_eq!(plain, set_file_bytes(RED, f.content, &fit).unwrap());
    }
    let broken = "<svg xmlns=\"http://www.w3.org/2000/svg\"><rect</svg>";
    let r = render_plain_png(broken, 16, &fit);
    assert!(matches!(r, Some(Err(RenderError::Parse(_)))));
}

#[test]
fn what_is_not_plain_or_moderate_or_too_large_is_left_out() {
    assert!(render_plain_png("<svg/>", 16, &fit).is_none());
    assert!(render_plain_png(RED, 4097, &fit).is_none());
    assert!(render_plain_png(RED, 4096, &fit).is_none());
    let far = |_: usvg::Size, _: u32| tiny_skia::Transform::from_translate(5000.0, 0.0);
    assert!(render_plain_png(RED, 16, &far).is_none());
    assert!(plain_set_file_bytes("<svg/>", Content::Ico, &fit).is_none());
    assert!(plain_set_file_bytes("<svg/>", Content::Png(16), &fit).is_none());
    assert!(plain_set_file_bytes(RED, Content::Png(4097), &fit).is_none());
    assert!(plain_set_file_bytes("<svg/>", Content::Manifest, &fit).is_some());
}

#[test]
fn plain_drawings_survive_the_largest_transforms() {
    let svg = "<svg xmlns=\"http://www.w3.org/2000/svg\" width=\"9999\" height=\"9999\">\
               <rect x=\"9999%\" y=\"9999%\" width=\"9999%\" height=\"9999%\"/>\
               <rect width=\"9999%\" height=\"9999%\" fill=\"#fff\"/>\
               <rect width=\"0.00001\" height=\"9999%\"/></svg>";
    let k = 63.9;
    for (sx, ky, kx, sy) in [(k, 0.0, 0.0, k), (k, k, -k, k), (-k, k, k, k), (k, -k, k, 1.0)] {
        for (tx, ty) in [(0.0, 0.0), (4095.0, -4095.0), (-4095.0, 4095.0)] {
            let t = tiny_skia::Transform::from_row(sx, ky, kx, sy, tx, ty);
            let with = |_: usvg::Size, _: u32| t;
            for side in [1, 48, 512] {
                assert!(render_plain_png(svg, side, &with).unwrap().is_ok());
            }
        }
    }
}

#[test]
fn drawings_that_are_not_plain_are_rendered() {
    let rest = [
        "<defs><pattern id=\"p\" width=\"4\" height=\"4\" patternUnits=\"userSpaceOnUse\">\
         <rect width=\"2\" height=\"2\"/></pattern></defs><rect width=\"9\" height=\"9\" \
         fill=\"url(#p)\"/>",
        "<title>&#65;</title><circle r=\"100000\"/>",
        "<filter id=\"f\"><feGaussianBlur stdDeviation=\"1\"/></filter>\
         <rect width=\"9\" height=\"9\" filter=\"url(#f)\"/>",
        "<path d=\"M1 1q2 3 4 5\" stroke=\"#000\"/>",
    ];
    for content in rest {
        let svg = format!(
            "<svg xmlns=\"http://www.w3.org/2000/svg\" width=\"9\" height=\"9\">{content}</svg>"
        );
        assert!(render_plain_png(&svg, 16, &fit).is_none());
        assert!(render_png(&svg, 16, &fit).is_ok(), "{content}");
        assert!(generate_ico(&svg, &fit).is_ok(), "{content}");
    }
}

#[test]
fn what_is_no_drawing_is_refused() {
    let r = render_png("not a drawing", 16, &fit);
    assert!(matches!(r, Err(RenderError::Parse(_))));
    assert_eq!(r.unwrap_err().context(), "Failed to parse SVG");
    let r = generate_ico("<svg/", &fit);
    assert!(matches!(r, Err(IcoError::Parse(_))));
    assert_eq!(r.unwrap_err().context(), "Failed to parse SVG for ICO");
}

#[test]
fn an_image_without_pixels_is_refused() {
    let r = render_png(RED, 0, &fit);
    assert!(matches!(r, Err(RenderError::Allocate)));
    assert_eq!(r.unwrap_err().context(), "Failed to allocate pixmap");
    assert!(matches!(render_png(RED, u32::MAX, &fit), Err(RenderError::Allocate)));
    assert!(matches!(render_png("", 0, &fit), Err(RenderError::Parse(_))));
}

#[test]
fn a_parsed_drawing_is_rendered() {
    let tree = usvg::Tree::from_str(RED, &usvg::Options::default()).unwrap();
    let transform = fit(tree.size(), 8);
    assert!(rasterize(&tree, 0, transform).is_none());
    let pixmap = rasterize(&tree, 8, transform).unwrap();
    assert_eq!(pixmap.data()[..4], [255, 0, 0, 255]);
    assert_eq!(pixmap.data()[4 * 63..], [0, 0, 0, 0]);
    assert_eq!(render_tree(&tree, 8, transform).unwrap(), pixmap.encode_png().unwrap());
    assert!(matches!(render_tree(&tree, 0, transform), Err(RenderError::Allocate)));
}

#[test]
fn an_ico_file_bundles_three_sizes() {
    let file = generate_ico(RED, &fit).unwrap();
    let dir = ico::IconDir::read(std::io::Cursor::new(file)).unwrap();
    assert_eq!(dir.resource_type(), ico::ResourceType::Icon);
    let sizes: Vec<(u32, u32)> = dir.entries().iter().map(|e| (e.width(), e.height())).collect();
    assert_eq!(sizes, vec![(16, 16), (32, 32), (48, 48)]);
    for entry in dir.entries() {
        let image = entry.decode().unwrap();
        let n = image.width() as usize;
        assert_eq!(image.rgba_data()[..4], [255, 0, 0, 255]);
        assert_eq!(image.rgba_data()[4 * (n * n - 1) + 3], 0);
    }
}

#[test]
fn an_ico_file_holds_the_images_added() {
    let mut builder = IcoBuilder::new();
    assert_eq!(builder.finish().unwrap(), vec![0, 0, 1, 0, 0, 0]);
    let white = vec![255u8; 4];
    let other: Vec<u8> = vec![
        1, 2, 3, 255, 4, 5, 6, 255, //
        7, 8, 9, 0, 10, 11, 12, 255,
    ];
    assert!(builder.add(1, white.clone()).is_ok());
    assert!(builder.add(2, other.clone()).is_ok());
    let file = builder.finish().unwrap();
    assert_eq!(file[..6], [0, 0, 1, 0, 2, 0]);
    let lens: Vec<u32> = [14, 30]
        .iter()
        .map(|&at| u32::from_le_bytes([file[at], file[at + 1], file[at + 2], file[at + 3]]))
        .collect();
    assert_eq!(file[6..10], [1, 1, file[8], 0]);
    assert_eq!(file[22..26], [2, 2, file[24], 0]);
    assert_eq!(file[18..22], [38, 0, 0, 0]);
    assert_eq!(file[34..38], (38 + lens[0]).to_le_bytes());
    assert_eq!(file.len(), 38 + lens[0] as usize + lens[1] as usize);
    let dir = ico::IconDir::read(std::io::Cursor::new(file)).unwrap();
    assert_eq!(dir.entries().len(), 2);
    assert_eq!(dir.entries()[0].decode().unwrap().rgba_data(), &white[..]);
    assert_eq!(dir.entries()[1].decode().unwrap().rgba_data(), &other[..]);
}

#[test]
fn an_ico_file_is_laid_out_in_full() {
    // One opaque red pixel: a bitmap of one colour, its row and its mask.
    let mut builder = IcoBuilder::new();
    assert!(builder.add(1, vec![255, 0, 0, 255]).is_ok());
    let mut expected = vec![
        0, 0, 1, 0, 1, 0, //
        1, 1, 2, 0, 1, 0, 1, 0, 56, 0, 0, 0, 22, 0, 0, 0, //
    ];
    expected.extend([40, 0, 0, 0, 1, 0, 0, 0, 2, 0, 0, 0, 1, 0, 1, 0]);
    expected.extend([0; 24]);
    expected.extend([0, 0, 255, 0, 0, 0, 0, 0]);
    expected.extend([0; 8]);
    assert_eq!(builder.finish().unwrap(), expected);
}

#[test]
fn errors_of_ico_files_say_what_was_being_done() {
    assert_eq!(IcoError::Allocate.context(), "Failed to allocate pixmap for ICO");
    assert_eq!(IcoError::TooLarge.context(), "Failed to write ICO");
    let io = || std::io::Error::new(std::io::ErrorKind::Other, "x");
    assert_eq!(IcoError::Encode(io()).context(), "ICO encode error");
    assert_eq!(IcoError::Write(io()).context(), "Failed to write ICO");
    let e = RenderError::Encode(png::EncodingError::LimitsExceeded);
    assert_eq!(e.context(), "Failed to encode PNG");
}

#[test]
fn every_file_of_a_set_can_be_made() {
    for f in set_files() {
        let bytes = set_file_bytes(RED, f.content, &fit).unwrap();
        match f.content {
            Content::Png(n) => {
                assert_eq!(tiny_skia::Pixmap::decode_png(&bytes).unwrap().width(), n);
                assert_eq!(bytes, render_png(RED, n, &fit).unwrap());
            }
            Content::Ico => assert_eq!(bytes, generate_ico(RED, &fit).unwrap()),
            Content::Manifest => assert_eq!(bytes, WEBMANIFEST.as_bytes()),
        }
    }
    let r = set_file_bytes("", Content::Png(16), &fit);
    assert!(matches!(r, Err(SetFileError::Png(RenderError::Parse(_)))));
    let r = set_file_bytes("", Content::Ico, &fit);
    assert!(matches!(r, Err(SetFileError::Ico(IcoError::Parse(_)))));
    assert!(set_file_bytes("", Content::Manifest, &fit).is_ok());
}

#[test]
fn too_many_images_cannot_be_written() {
    let mut builder = IcoBuilder::new();
    for _ in 0..65536 {
        assert!(builder.add(1, vec![255u8; 4]).is_ok());
    }
    assert!(matches!(builder.finish(), Err(IcoError::Write(_))));
}

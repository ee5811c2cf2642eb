use av1_grain::plane::{ChromaSubsampling, Frame, Plane, PlaneGeometry};
use av1_grain::util::{
    convert_plane_to_u8, frame_into_u8, get_dbg, get_dbg_mut, get_dbg_mut_range, ByteFrame,
    PixelFrame,
};
use std::num::{NonZeroU8, NonZeroUsize};
use v_frame::chroma::ChromaSubsampling as Sampling;
use v_frame::frame::FrameBuilder;

fn plane_of<P: Copy>(plane: &v_frame::plane::Plane<u16>, convert: fn(u16) -> P) -> Plane<P> {
    let g = plane.geometry();
    Plane {
        data: plane.data().iter().map(|p| convert(*p)).collect(),
        geometry: PlaneGeometry {
            width: g.width.get(),
            height: g.height.get(),
            stride: g.stride.get(),
            pad_left: g.pad_left,
            pad_right: g.pad_right,
            pad_top: g.pad_top,
            pad_bottom: g.pad_bottom,
            subsampling_x: g.subsampling_x.get(),
            subsampling_y: g.subsampling_y.get(),
        },
    }
}

fn visible<P: Copy>(plane: &Plane<P>) -> Vec<P> {
    let g = plane.geometry;
    let mut pixels = Vec::new();
    for y in 0..g.height {
        for x in 0..g.width {
            pixels.push(plane.data[(g.pad_top + y) * g.stride + g.pad_left + x]);
        }
    }
    pixels
}

fn blank(width: usize, height: usize, subsampling_x: u8, subsampling_y: u8) -> Plane<u16> {
    Plane {
        data: vec![0; width * height],
        geometry: PlaneGeometry {
            width,
            height,
            stride: width,
            pad_left: 0,
            pad_right: 0,
            pad_top: 0,
            pad_bottom: 0,
            subsampling_x,
            subsampling_y,
        },
    }
}

fn owned(frame: &PixelFrame, bit_depth: usize) -> Frame<u8> {
    match frame_into_u8(frame, bit_depth) {
        ByteFrame::Owned(out) => out,
        ByteFrame::Borrowed(_) => panic!("expected a new frame"),
    }
}

#[test]
fn frame_into_u8_preserves_visible_high_bit_depth_pixels_with_padding() {
    let mut built = FrameBuilder::new(
        NonZeroUsize::new(8).expect("non-zero constant"),
        NonZeroUsize::new(4).expect("non-zero constant"),
        Sampling::Yuv420,
        NonZeroU8::new(10).expect("non-zero constant"),
    )
    .luma_padding_left(2)
    .luma_padding_right(4)
    .luma_padding_top(2)
    .luma_padding_bottom(2)
    .build::<u16>()
    .expect("valid frame");

    for plane_index in 0..3 {
        let plane = built.plane_mut(plane_index).expect("plane exists");
        for (index, pixel) in plane.pixels_mut().enumerate() {
            *pixel = ((index * 37 + plane_index * 101) % 1024) as u16;
        }
    }

    let frame = PixelFrame::TwoBytes(Frame {
        y_plane: plane_of(built.plane(0).expect("plane exists"), |p| p),
        u_plane: built.plane(1).map(|p| plane_of(p, |p| p)),
        v_plane: built.plane(2).map(|p| plane_of(p, |p| p)),
        subsampling: ChromaSubsampling::Yuv420,
        bit_depth: 10,
    });
    let converted = owned(&frame, 10);
    let outputs = [
        &converted.y_plane,
        converted.u_plane.as_ref().expect("plane exists"),
        converted.v_plane.as_ref().expect("plane exists"),
    ];
    for plane_index in 0..3 {
        let input = built.plane(plane_index).expect("plane exists");
        let output = visible(outputs[plane_index]);
        assert_eq!(output.len(), input.pixels().count());
        for (i, o) in input.pixels().zip(output) {
            assert_eq!((i >> 2) as u8, o);
        }
    }
    assert_eq!(converted.bit_depth, 8);
    assert_eq!(converted.y_plane.geometry.stride, 8);
    assert_eq!(outputs[1].geometry.width, 4);
    assert_eq!(outputs[1].geometry.height, 2);
    assert_eq!(outputs[1].geometry.subsampling_x, 2);
}

#[test]
fn an_eight_bit_frame_is_borrowed() {
    let geometry = blank(2, 1, 1, 1).geometry;
    let frame = PixelFrame::OneByte(Frame {
        y_plane: Plane { data: vec![7, 9], geometry },
        u_plane: None,
        v_plane: None,
        subsampling: ChromaSubsampling::Monochrome,
        bit_depth: 8,
    });
    match frame_into_u8(&frame, 8) {
        ByteFrame::Borrowed(f) => assert_eq!(f.y_plane.data, vec![7, 9]),
        ByteFrame::Owned(_) => panic!("expected the frame itself"),
    }
}

#[test]
fn every_subsampling_keeps_its_plane_sizes() {
    let cases = [
        (ChromaSubsampling::Yuv420, 2, 2),
        (ChromaSubsampling::Yuv422, 2, 1),
        (ChromaSubsampling::Yuv444, 1, 1),
    ];
    for (subsampling, x, y) in cases {
        let (w, h) = (6 / x as usize, 4 / y as usize);
        let mut u = blank(w, h, x, y);
        let mut v = blank(w, h, x, y);
        u.data[1] = 0x1234;
        v.data[0] = 0xff00;
        let frame = PixelFrame::TwoBytes(Frame {
            y_plane: blank(6, 4, 1, 1),
            u_plane: Some(u),
            v_plane: Some(v),
            subsampling,
            bit_depth: 16,
        });
        let out = owned(&frame, 16);
        assert_eq!(out.subsampling, subsampling);
        assert_eq!(out.y_plane.data.len(), 24);
        let u = out.u_plane.expect("plane exists");
        let v = out.v_plane.expect("plane exists");
        assert_eq!((u.geometry.width, u.geometry.height), (w, h));
        assert_eq!(u.data.len(), w * h);
        assert_eq!(u.data[1], 0x12);
        assert_eq!(v.data[0], 0xff);
        assert_eq!(v.data[1], 0);
    }
}

#[test]
fn a_monochrome_frame_has_no_chroma() {
    let mut y_plane = blank(3, 5, 1, 1);
    y_plane.data[14] = 0x0fff;
    let frame = PixelFrame::TwoBytes(Frame {
        y_plane,
        u_plane: None,
        v_plane: None,
        subsampling: ChromaSubsampling::Monochrome,
        bit_depth: 12,
    });
    let out = owned(&frame, 12);
    assert!(out.u_plane.is_none());
    assert!(out.v_plane.is_none());
    assert_eq!(out.y_plane.data[14], 255);
    assert_eq!(out.y_plane.data[13], 0);
}

#[test]
fn padding_of_the_target_is_left_alone() {
    let mut input = blank(1, 1, 1, 1);
    input.data[0] = 0x0204;
    let mut geometry = input.geometry;
    geometry.pad_left = 1;
    geometry.pad_right = 1;
    geometry.pad_top = 1;
    geometry.pad_bottom = 1;
    geometry.stride = 3;
    let mut output = Plane { data: vec![9u8; 9], geometry };
    assert_eq!(output.data_origin(), 4);
    convert_plane_to_u8(&input, &mut output, 2);
    assert_eq!(output.data, vec![9, 9, 9, 9, 129, 9, 9, 9, 9]);
}

#[test]
fn slices_are_read_and_changed_in_place() {
    let mut data = [1, 2, 3, 4, 5];
    assert_eq!(*get_dbg(&data, 3), 4);
    assert_eq!(get_dbg(&data, 1..3), &[2, 3]);
    *get_dbg_mut(&mut data, 0) = 10;
    get_dbg_mut_range(&mut data, 2..4)[1] = 40;
    assert_eq!(data, [10, 2, 3, 40, 5]);
}

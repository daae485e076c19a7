use wezterm_glyph_protocol::glyf::{assemble, decode, DecodeError, GlyphHeader, Point};

/// Build a minimal simple-glyph record for a single triangle contour with
/// three on-curve points: header, endPtsOfContours, instructionLength, flags,
/// then x- and y-coordinate deltas.
fn triangle_bytes() -> Vec<u8> {
    const ON_CURVE: u8 = 0x01;
    let mut v = Vec::new();
    v.extend_from_slice(&1i16.to_be_bytes()); // numberOfContours
    v.extend_from_slice(&0i16.to_be_bytes()); // xMin
    v.extend_from_slice(&0i16.to_be_bytes()); // yMin
    v.extend_from_slice(&100i16.to_be_bytes()); // xMax
    v.extend_from_slice(&100i16.to_be_bytes()); // yMax
    v.extend_from_slice(&2u16.to_be_bytes()); // endPtsOfContours[0] = 2 (3 points)
    v.extend_from_slice(&0u16.to_be_bytes()); // instructionLength
    v.push(ON_CURVE); // flags p0
    v.push(ON_CURVE); // flags p1
    v.push(ON_CURVE); // flags p2
    // x coords as signed shorts: flag bit for short-x is not set, so
    // each is a signed 16-bit delta.
    v.extend_from_slice(&0i16.to_be_bytes()); // x0 delta
    v.extend_from_slice(&100i16.to_be_bytes()); // x1 delta -> x=100
    v.extend_from_slice(&(-100i16).to_be_bytes()); // x2 delta -> x=0
    v.extend_from_slice(&0i16.to_be_bytes()); // y0 delta
    v.extend_from_slice(&0i16.to_be_bytes()); // y1 delta -> y=0
    v.extend_from_slice(&100i16.to_be_bytes()); // y2 delta -> y=100
    v
}

fn header(end_pts: Vec<u16>) -> GlyphHeader {
    GlyphHeader {
        x_min: -1,
        y_min: -2,
        x_max: 3,
        y_max: 4,
        instruction_length: 0,
        end_pts,
    }
}

#[test]
fn decodes_triangle_contour() {
    let out = decode(&triangle_bytes()).expect("triangle decodes");
    assert_eq!(out.contours.len(), 1);
    let c = &out.contours[0];
    assert_eq!(c.len(), 3);
    assert!(c.iter().all(|p| p.on_curve));
    assert_eq!((out.x_max, out.y_max), (100, 100));
    // points: (0,0) (100,0) (0,100)
    assert_eq!((c[0].x, c[0].y), (0, 0));
    assert_eq!((c[1].x, c[1].y), (100, 0));
    assert_eq!((c[2].x, c[2].y), (0, 100));
}

#[test]
fn rejects_composite() {
    let mut v = vec![0u8; 12];
    v[0] = 0xFF; // numberOfContours = -1
    v[1] = 0xFF;
    assert_eq!(decode(&v), Err(DecodeError::Composite));
}

#[test]
fn rejects_too_short() {
    assert_eq!(decode(&[0, 1, 0, 0]), Err(DecodeError::Malformed));
}

#[test]
fn rejects_hinted() {
    let mut v = triangle_bytes();
    v[13] = 1; // instructionLength
    assert_eq!(decode(&v), Err(DecodeError::Hinted));
}

#[test]
fn rejects_every_truncation() {
    let whole = triangle_bytes();
    for n in 0..whole.len() {
        assert_eq!(decode(&whole[..n]), Err(DecodeError::Malformed), "{n}");
    }
}

#[test]
fn composite_is_told_from_ten_bytes_on() {
    let mut v = vec![0u8; 9];
    v[0] = 0x80;
    assert_eq!(decode(&v), Err(DecodeError::Malformed));
    v.push(0);
    assert_eq!(decode(&v), Err(DecodeError::Composite));
}

#[test]
fn bounding_box_is_signed() {
    let mut v = triangle_bytes();
    v[2..4].copy_from_slice(&(-7i16).to_be_bytes());
    v[4..6].copy_from_slice(&i16::MIN.to_be_bytes());
    v[6..8].copy_from_slice(&i16::MAX.to_be_bytes());
    v[8..10].copy_from_slice(&(-1i16).to_be_bytes());
    let out = decode(&v).unwrap();
    assert_eq!(
        (out.x_min, out.y_min, out.x_max, out.y_max),
        (-7, i16::MIN, i16::MAX, -1)
    );
}

#[test]
fn off_curve_points_are_told_apart() {
    let mut v = triangle_bytes();
    v[15] = 0; // flags p1
    let out = decode(&v).unwrap();
    let on: Vec<bool> = out.contours[0].iter().map(|p| p.on_curve).collect();
    assert_eq!(on, vec![true, false, true]);
}

#[test]
fn two_contours_share_out_the_points() {
    let mut v = Vec::new();
    v.extend_from_slice(&2i16.to_be_bytes());
    v.extend_from_slice(&[0; 8]);
    v.extend_from_slice(&0u16.to_be_bytes());
    v.extend_from_slice(&2u16.to_be_bytes());
    v.extend_from_slice(&0u16.to_be_bytes());
    v.extend_from_slice(&[1, 1, 1]);
    for dx in [5i16, 1, 1] {
        v.extend_from_slice(&dx.to_be_bytes());
    }
    for dy in [9i16, -1, -1] {
        v.extend_from_slice(&dy.to_be_bytes());
    }
    let out = decode(&v).unwrap();
    let points: Vec<Vec<(i16, i16)>> = out
        .contours
        .iter()
        .map(|c| c.iter().map(|p| (p.x, p.y)).collect())
        .collect();
    assert_eq!(points, vec![vec![(5, 9)], vec![(6, 8), (7, 7)]]);
    // Ends that do not increase do not hold together.
    v[11] = 2;
    assert_eq!(decode(&v), Err(DecodeError::Malformed));
}

#[test]
fn assembly_checks_ends_against_points() {
    let points = [(1, 2, true), (3, 4, false), (5, 6, true)];
    let out = assemble(&header(vec![0, 2]), &points).unwrap();
    assert_eq!(
        out.contours,
        vec![
            vec![Point {
                x: 1,
                y: 2,
                on_curve: true
            }],
            vec![
                Point {
                    x: 3,
                    y: 4,
                    on_curve: false
                },
                Point {
                    x: 5,
                    y: 6,
                    on_curve: true
                }
            ],
        ]
    );
    assert_eq!((out.x_min, out.y_min, out.x_max, out.y_max), (-1, -2, 3, 4));
    for ends in [vec![2, 0], vec![1, 1, 2], vec![0, 1], vec![0, 3], vec![65535]] {
        assert_eq!(
            assemble(&header(ends), &points),
            Err(DecodeError::Malformed)
        );
    }
    // Without ends there are no contours, whatever the points.
    assert!(assemble(&header(vec![]), &points)
        .unwrap()
        .contours
        .is_empty());
    let mut hinted = header(vec![2, 0]);
    hinted.instruction_length = 1;
    assert_eq!(assemble(&hinted, &points), Err(DecodeError::Hinted));
}

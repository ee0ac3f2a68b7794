use crate::binary32;
use crate::binary32::Binary32;
use crate::faces::FaceDetection;
use crate::geometry;
use crate::geometry::{Point, Rect};
use vstd::prelude::*;

verus! {

/// A color of the picture.
#[derive(Clone, Copy, Debug, PartialEq, Eq, Structural)]
pub struct Color {
    pub blue: u8,
    pub green: u8,
    pub red: u8,
}

/// One thing to draw into the picture.
#[derive(Clone, Copy, Debug, PartialEq, Eq, Structural)]
pub enum DrawCommand {
    /// The outline of a rectangle.
    Rectangle { area: Rect, color: Color, thickness: i32 },
    /// A score with two decimals, written from its lower left corner on.
    Score { confidence: Binary32, origin: Point, color: Color, thickness: i32 },
    /// A filled circle.
    Dot { center: Point, radius: i32, color: Color },
}

/// The color of boxes and scores.
pub open spec fn box_color() -> Color {
    Color { blue: 0, green: 255, red: 0 }
}

/// The color of a landmark: right eye red, left eye blue, nose yellow, right corner of the mouth
/// magenta, left corner cyan.
pub open spec fn landmark_color(k: int) -> Color {
    if k == 0 {
        Color { blue: 0, green: 0, red: 255 }
    } else if k == 1 {
        Color { blue: 255, green: 0, red: 0 }
    } else if k == 2 {
        Color { blue: 0, green: 255, red: 255 }
    } else if k == 3 {
        Color { blue: 255, green: 0, red: 255 }
    } else {
        Color { blue: 255, green: 255, red: 0 }
    }
}

/// What is drawn for a face: its box, its score five pixels above the box but not above the tenth
/// row, then its landmarks.
pub open spec fn face_commands(face: FaceDetection) -> Seq<DrawCommand> {
    seq![
        DrawCommand::Rectangle { area: face.bbox, color: box_color(), thickness: 2 },
        DrawCommand::Score {
            confidence: face.confidence,
            origin: Point { x: face.bbox.x, y: geometry::larger(face.bbox.y - 5, 10) as i32 },
            color: box_color(),
            thickness: 1,
        },
    ] + Seq::new(
        5,
        |k: int|
            DrawCommand::Dot {
                center: Point {
                    x: binary32::truncated(face.landmarks@[k].0) as i32,
                    y: binary32::truncated(face.landmarks@[k].1) as i32,
                },
                radius: 2,
                color: landmark_color(k),
            },
    )
}

/// What is drawn for several faces, one after another.
pub open spec fn drawing(faces: Seq<FaceDetection>) -> Seq<DrawCommand>
    decreases faces.len(),
{
    if faces.len() == 0 {
        Seq::empty()
    } else {
        drawing(faces.drop_last()) + face_commands(faces.last())
    }
}

/// There is room for the score above the box within `i32`.
pub open spec fn score_fits(face: FaceDetection) -> bool {
    face.bbox.y >= i32::MIN + 5
}

fn color_of(k: usize) -> (r: Color)
    requires
        k < 5,
    ensures
        r == landmark_color(k as int),
{
    let colors: [Color; 5] = [
        Color { blue: 0, green: 0, red: 255 },
        Color { blue: 255, green: 0, red: 0 },
        Color { blue: 0, green: 255, red: 255 },
        Color { blue: 255, green: 0, red: 255 },
        Color { blue: 255, green: 255, red: 0 },
    ];
    colors[k]
}

/// What to draw for the faces, in order.
pub fn draw_faces(faces: &Vec<FaceDetection>) -> (r: Vec<DrawCommand>)
    requires
        forall|i: int| 0 <= i < faces@.len() ==> score_fits(#[trigger] faces@[i]),
    ensures
        r@ == drawing(faces@),
{
    let green = Color { blue: 0, green: 255, red: 0 };
    let mut commands: Vec<DrawCommand> = Vec::new();
    let mut i: usize = 0;
    assert(faces@.take(0) =~= Seq::<FaceDetection>::empty());
    while i < faces.len()
        invariant
            i <= faces@.len(),
            green == box_color(),
            forall|i: int| 0 <= i < faces@.len() ==> score_fits(#[trigger] faces@[i]),
            commands@ == drawing(faces@.take(i as int)),
        decreases faces@.len() - i,
    {
        let face = &faces[i];
        let ghost before = commands@;
        let ghost all = face_commands(*face);
        commands.push(DrawCommand::Rectangle { area: face.bbox, color: green, thickness: 2 });
        assert(score_fits(faces@[i as int]));
        let above: i32 = face.bbox.y - 5;
        let y: i32 = if above < 10 {
            10
        } else {
            above
        };
        commands.push(
            DrawCommand::Score {
                confidence: face.confidence,
                origin: Point { x: face.bbox.x, y },
                color: green,
                thickness: 1,
            },
        );
        assert(commands@ =~= before + all.take(2));
        let mut k: usize = 0;
        while k < 5
            invariant
                k <= 5,
                all == face_commands(*face),
                commands@ == before + all.take(2 + k),
            decreases 5 - k,
        {
            let landmark = face.landmarks[k];
            commands.push(
                DrawCommand::Dot {
                    center: Point { x: landmark.0.to_i32(), y: landmark.1.to_i32() },
                    radius: 2,
                    color: color_of(k),
                },
            );
            assert(commands@ =~= before + all.take(2 + k + 1));
            k = k + 1;
        }
        proof {
            assert(all.take(7) =~= all);
            assert(faces@.take(i + 1).drop_last() =~= faces@.take(i as int));
        }
        i = i + 1;
    }
    assert(faces@.take(faces@.len() as int) =~= faces@);
    commands
}

/// Each face gets the same number of commands, so those of a face are found by its place.
pub proof fn commands_of_each_face(faces: Seq<FaceDetection>)
    ensures
        drawing(faces).len() == 7 * faces.len(),
        forall|i: int, c: int|
            0 <= i < faces.len() && 0 <= c < 7 ==> #[trigger] face_commands(faces[i])[c] == drawing(faces)[7 * i + c],
    decreases faces.len(),
{
    if faces.len() > 0 {
        let rest = faces.drop_last();
        commands_of_each_face(rest);
        assert forall|i: int, c: int| 0 <= i < faces.len() && 0 <= c < 7 implies #[trigger] face_commands(
            faces[i],
        )[c] == drawing(faces)[7 * i + c] by {
            if i < rest.len() {
                assert(face_commands(rest[i])[c] == drawing(rest)[7 * i + c]);
            }
        }
    }
}

/// What is drawn for the face at a place, whatever the other faces are: a green box, two pixels thick,
/// that is exactly the face's; its score in green, five pixels above the box but not above the tenth
/// row; and a dot, two pixels around, at each landmark's whole pixel, red for the right eye, blue for
/// the left, yellow for the nose, magenta and cyan for the right and left corner of the mouth. Nothing
/// else is drawn.
pub proof fn each_face_is_drawn_in_its_place(faces: Seq<FaceDetection>, i: int)
    requires
        0 <= i < faces.len(),
        faces[i].bbox.y >= i32::MIN + 5,
    ensures
        drawing(faces).len() == 7 * faces.len(),
        drawing(faces)[7 * i] == (DrawCommand::Rectangle {
            area: faces[i].bbox,
            color: Color { blue: 0, green: 255, red: 0 },
            thickness: 2,
        }),
        ({
            &&& drawing(faces)[7 * i + 1] matches DrawCommand::Score { confidence, origin, color, thickness }
            &&& confidence == faces[i].confidence
            &&& origin.x == faces[i].bbox.x
            &&& faces[i].bbox.y >= 15 ==> origin.y == faces[i].bbox.y - 5
            &&& faces[i].bbox.y < 15 ==> origin.y == 10
            &&& color == Color { blue: 0, green: 255, red: 0 }
            &&& thickness == 1
        }),
        forall|k: int|
            0 <= k < 5 ==> ({
                &&& #[trigger] drawing(faces)[7 * i + 2 + k] matches DrawCommand::Dot { center, radius, color }
                &&& center.x == binary32::truncated(faces[i].landmarks@[k].0)
                &&& center.y == binary32::truncated(faces[i].landmarks@[k].1)
                &&& radius == 2
                &&& color.red == (if k == 0 || k == 2 || k == 3 { 255int } else { 0 })
                &&& color.green == (if k == 2 || k == 4 { 255int } else { 0 })
                &&& color.blue == (if k == 1 || k == 3 || k == 4 { 255int } else { 0 })
            }),
{
    commands_of_each_face(faces);
    let all = face_commands(faces[i]);
    assert(all[0] == drawing(faces)[7 * i + 0]);
    assert(all[1] == drawing(faces)[7 * i + 1]);
    assert forall|k: int| 0 <= k < 5 implies ({
        &&& #[trigger] drawing(faces)[7 * i + 2 + k] matches DrawCommand::Dot { center, radius, color }
        &&& center.x == binary32::truncated(faces[i].landmarks@[k].0)
        &&& center.y == binary32::truncated(faces[i].landmarks@[k].1)
        &&& radius == 2
        &&& color.red == (if k == 0 || k == 2 || k == 3 { 255int } else { 0 })
        &&& color.green == (if k == 2 || k == 4 { 255int } else { 0 })
        &&& color.blue == (if k == 1 || k == 3 || k == 4 { 255int } else { 0 })
    }) by {
        assert(all[2 + k] == drawing(faces)[7 * i + (2 + k)]);
        binary32::truncations_fit(faces[i].landmarks@[k].0);
        binary32::truncations_fit(faces[i].landmarks@[k].1);
    }
}

} // verus!

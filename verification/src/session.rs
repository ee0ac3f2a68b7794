use vstd::prelude::*;

verus! {

/// The key code of `q`, which ends the session.
pub const QUIT_KEY: i32 = 113;

/// What the program does next.
#[derive(Clone, Copy, Debug, PartialEq, Eq, Structural)]
pub enum Step {
    /// Open the camera.
    Open,
    /// Read a frame from the camera.
    Capture,
    /// Find the faces in the frame and draw them.
    Detect,
    /// Compress the frame for the viewers.
    Encode,
    /// Hand the compressed frame to the viewers.
    Broadcast,
    /// Show the frame in the window.
    Show,
    /// Look for a key press.
    AwaitKey,
    /// Close the window and end.
    Stop,
    /// End with the error that came up.
    Fail,
}

/// What came of a step.
#[derive(Clone, Copy, Debug, PartialEq, Eq, Structural)]
pub enum Event {
    /// Whether the camera is open.
    Opened { ready: bool },
    /// Whether a frame was read, and whether it holds no pixels.
    Captured { read: bool, empty: bool },
    /// The faces are drawn; so many viewers are waiting.
    Detected { receivers: usize },
    /// The frame is compressed.
    Encoded,
    /// The frame was handed on, or there was nobody left to take it.
    Sent,
    /// The frame is in the window.
    Shown,
    /// The code of the key that was pressed, negative for none.
    Key { code: i32 },
    /// The step came to an error.
    Failed,
}

/// The event can come of the step.
pub open spec fn answers(step: Step, event: Event) -> bool {
    match step {
        Step::Open => event is Opened || event is Failed,
        Step::Capture => event is Captured || event is Failed,
        Step::Detect => event is Detected || event is Failed,
        Step::Encode => event is Encoded || event is Failed,
        Step::Broadcast => event is Sent,
        Step::Show => event is Shown || event is Failed,
        Step::AwaitKey => event is Key || event is Failed,
        Step::Stop => false,
        Step::Fail => false,
    }
}

/// The step that follows.
///
/// A frame that cannot be read is skipped. Only frames that somebody waits for are compressed, and
/// one that cannot be compressed is still shown. Any other error ends the session, and so does
/// the quit key.
pub open spec fn following(step: Step, event: Event) -> Step {
    match event {
        Event::Opened { ready } => if ready {
            Step::Capture
        } else {
            Step::Fail
        },
        Event::Captured { read, empty } => if read && !empty {
            Step::Detect
        } else {
            Step::Capture
        },
        Event::Detected { receivers } => if receivers > 0 {
            Step::Encode
        } else {
            Step::Show
        },
        Event::Encoded => Step::Broadcast,
        Event::Sent => Step::Show,
        Event::Shown => Step::AwaitKey,
        Event::Key { code } => if code == QUIT_KEY {
            Step::Stop
        } else {
            Step::Capture
        },
        Event::Failed => if step is Encode {
            Step::Show
        } else {
            Step::Fail
        },
    }
}

/// Decides what to do after a step.
pub fn next_step(step: Step, event: Event) -> (r: Step)
    requires
        answers(step, event),
    ensures
        r == following(step, event),
{
    match event {
        Event::Opened { ready } => {
            if ready {
                Step::Capture
            } else {
                Step::Fail
            }
        },
        Event::Captured { read, empty } => {
            if !read || empty {
                Step::Capture
            } else {
                Step::Detect
            }
        },
        Event::Detected { receivers } => {
            if receivers > 0 {
                Step::Encode
            } else {
                Step::Show
            }
        },
        Event::Encoded => Step::Broadcast,
        Event::Sent => Step::Show,
        Event::Shown => Step::AwaitKey,
        Event::Key { code } => {
            if code == QUIT_KEY {
                Step::Stop
            } else {
                Step::Capture
            }
        },
        Event::Failed => match step {
            Step::Encode => Step::Show,
            _ => Step::Fail,
        },
    }
}

/// A course of the program: from opening the camera on, each step follows from what came of the
/// one before.
pub open spec fn is_course(steps: Seq<Step>, events: Seq<Event>) -> bool {
    &&& steps.len() == events.len() + 1
    &&& steps[0] == Step::Open
    &&& forall|i: int| 0 <= i < events.len() ==> answers(steps[i], #[trigger] events[i])
    &&& forall|i: int| 0 <= i < events.len() ==> steps[i + 1] == following(steps[i], #[trigger] events[i])
}

/// Faces are looked for only in a frame that was read and holds pixels.
pub proof fn only_read_frames_are_searched(steps: Seq<Step>, events: Seq<Event>, i: int)
    requires
        is_course(steps, events),
        0 <= i < steps.len(),
        steps[i] is Detect,
    ensures
        i >= 2,
        steps[i - 1] is Capture,
        events[i - 1] == (Event::Captured { read: true, empty: false }),
{
    assert(steps[i] == following(steps[i - 1], events[i - 1]));
    assert(answers(steps[i - 1], events[i - 1]));
}

/// A frame goes to the viewers only after faces were drawn into it, while somebody waited for it,
/// and after it was compressed.
pub proof fn only_awaited_frames_are_broadcast(steps: Seq<Step>, events: Seq<Event>, i: int)
    requires
        is_course(steps, events),
        0 <= i < steps.len(),
        steps[i] is Broadcast,
    ensures
        i >= 4,
        steps[i - 1] is Encode && events[i - 1] is Encoded,
        steps[i - 2] is Detect,
        events[i - 2] matches Event::Detected { receivers } && receivers > 0,
        events[i - 3] == (Event::Captured { read: true, empty: false }),
{
    assert(steps[i] == following(steps[i - 1], events[i - 1]));
    assert(answers(steps[i - 1], events[i - 1]));
    assert(steps[i - 1] == following(steps[i - 2], events[i - 2]));
    assert(answers(steps[i - 2], events[i - 2]));
    only_read_frames_are_searched(steps, events, i - 2);
}

/// The program ends without an error only on the quit key, and after the frame was shown.
pub proof fn only_the_quit_key_stops(steps: Seq<Step>, events: Seq<Event>, i: int)
    requires
        is_course(steps, events),
        0 <= i < steps.len(),
        steps[i] is Stop,
    ensures
        i >= 2,
        events[i - 1] == (Event::Key { code: QUIT_KEY }),
        steps[i - 2] is Show && events[i - 2] is Shown,
{
    assert(steps[i] == following(steps[i - 1], events[i - 1]));
    assert(answers(steps[i - 1], events[i - 1]));
    assert(steps[i - 1] == following(steps[i - 2], events[i - 2]));
    assert(answers(steps[i - 2], events[i - 2]));
}

/// Every frame in which faces were looked for without an error goes to the window within three
/// steps: at once, after compressing it failed, or after it was sent. So it does in every course
/// that has come to its end or has gone on for as long.
pub proof fn searched_frames_are_shown(steps: Seq<Step>, events: Seq<Event>, i: int)
    requires
        is_course(steps, events),
        0 <= i < events.len(),
        steps[i] is Detect,
        events[i] is Detected,
        i + 3 < steps.len() || steps.last() is Stop || steps.last() is Fail,
    ensures
        exists|n: int| i < n <= i + 3 && n < steps.len() && #[trigger] steps[n] is Show,
{
    assert(steps[i + 1] == following(steps[i], events[i]));
    if !(steps[i + 1] is Show) {
        assert(steps[i + 1] is Encode && i + 1 < events.len());
        assert(answers(steps[i + 1], events[i + 1]));
        assert(steps[i + 2] == following(steps[i + 1], events[i + 1]));
        if !(steps[i + 2] is Show) {
            assert(steps[i + 2] is Broadcast && i + 2 < events.len());
            assert(answers(steps[i + 2], events[i + 2]));
            assert(steps[i + 3] == following(steps[i + 2], events[i + 2]));
        }
    }
}

/// What came of a step decides the next one, throughout a course: every frame that was read and holds
/// pixels is searched, and any other is skipped; a searched frame is compressed if somebody waits for
/// it and shown at once if nobody does; a compressed frame is sent, and shown then, and one that
/// cannot be compressed is shown all the same; after it was shown comes the look for a key, which
/// ends the session if it is `q` and leads to the next frame if it is any other or none. A camera
/// that is not open and an error in any step but compressing end the session with a failure.
pub proof fn every_outcome_has_its_step(steps: Seq<Step>, events: Seq<Event>, i: int)
    requires
        is_course(steps, events),
        0 <= i < events.len(),
    ensures
        events[i] == (Event::Opened { ready: true }) ==> steps[i + 1] is Capture,
        events[i] == (Event::Opened { ready: false }) ==> steps[i + 1] is Fail,
        events[i] matches Event::Captured { read, empty } ==> (read && !empty ==> steps[i + 1] is Detect) && (!read
            || empty ==> steps[i + 1] is Capture),
        events[i] matches Event::Detected { receivers } ==> (receivers > 0 ==> steps[i + 1] is Encode) && (receivers
            == 0 ==> steps[i + 1] is Show),
        events[i] is Encoded ==> steps[i + 1] is Broadcast,
        events[i] is Sent ==> steps[i + 1] is Show,
        events[i] is Shown ==> steps[i + 1] is AwaitKey,
        events[i] matches Event::Key { code } ==> (code == 113 ==> steps[i + 1] is Stop) && (code != 113
            ==> steps[i + 1] is Capture),
        events[i] is Failed && steps[i] is Encode ==> steps[i + 1] is Show,
        events[i] is Failed && !(steps[i] is Encode) ==> steps[i + 1] is Fail,
{
    assert(steps[i + 1] == following(steps[i], events[i]));
    assert(answers(steps[i], events[i]));
}

/// A course goes on until it stops or fails, and nothing follows then. It fails only because the
/// camera is not open or because of an error, and never because a frame could not be compressed.
pub proof fn nothing_follows_the_end(steps: Seq<Step>, events: Seq<Event>, i: int)
    requires
        is_course(steps, events),
        0 <= i < steps.len(),
    ensures
        steps[i] is Stop || steps[i] is Fail ==> i == steps.len() - 1,
        steps[i] is Fail ==> i > 0 && (events[i - 1] == (Event::Opened { ready: false }) || events[i - 1] is Failed
            && !(steps[i - 1] is Encode)),
        steps[i] is Open ==> i == 0,
{
    if i < events.len() {
        assert(answers(steps[i], events[i]));
    }
    if i > 0 {
        assert(steps[i] == following(steps[i - 1], events[i - 1]));
        assert(answers(steps[i - 1], events[i - 1]));
    }
}

} // verus!

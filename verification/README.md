# yunet_stream

Finds faces in the frames of a camera with the YuNet network, draws them, shows the frames in a
window and streams them to viewers as MJPEG over HTTP.

`src/` is the library, verified with Verus:

- `binary32`, `rounding`: single-precision numbers as bit patterns, with addition, multiplication,
  division, square root, comparison and conversion proved to be correctly rounded. What is computed
  from the network's output goes through these, but for the exponentials.
- `tensor`: the arrays of `ndarray` that hold the network's input, its output and the prior boxes.
- `preprocess`: from the bytes of a scaled picture to the network's input.
- `priors`: the prior boxes.
- `decode`: from the rows of the network's output to detections.
- `selection`: which of many indices are chosen, in order.
- `rearrangement`: sequences that hold the same items in another order.
- `nms`: what goes into the suppression of overlapping boxes, and what its result stands for.
- `faces`: faces in the coordinates of the picture.
- `overlay`: what is drawn for them.
- `mjpeg`: the parts of the stream.
- `session`: what the program does next.
- `geometry`: rectangles and points.

`app/` opens the camera and the window, scales pictures, runs the network, suppresses overlaps,
draws and serves the stream. Exponentials and the text of a score are computed there, with the
machine's own floating point.

`tests/` holds the tests. Those of the numbers compare with the machine's arithmetic.

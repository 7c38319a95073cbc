# Citlali

An image optimisation server: POST an image with query parameters and get back a resized,
re-encoded image. The library in `src/` holds what the server decides and computes, with contracts
that Verus proves. The server in `app/` reads requests, runs libvips and sends the answers.

- `src/transform.rs`: formats, request parameters, and the checks that a request has to pass.
- `src/pipeline.rs`: a job as a sequence of libvips operations; each outcome decides the next one.
- `src/sizing.rs`: the sizes that the fits promise, as far as libvips makes what it is asked for.
- `src/crop.rs`: where a crop is cut out so that a face stands in its middle.
- `src/face.rs`, `src/face/`: the face detector (cascade files, summed-area tables, local binary
  patterns, the search, the grouping of its hits, and what the result does not depend on).
- `src/vips.rs`: sizes, resize modes and error messages of libvips.
- `src/server.rs`: answers, metrics and settings.
- `src/text.rs`: decimal numbers and white space.

The detector's sums of leaf values and its scales are floating-point numbers. They are computed in
`app/face.rs`, which also reads the cascade, `lbpcascade_animeface.xml`, from the working directory
when the server starts.

| Param     | Values                                | Default       |
| --------- | ------------------------------------- | ------------- |
| `width`   | 1-8192                                | unbounded     |
| `height`  | 1-8192                                | unbounded     |
| `fit`     | `scale-down`, `cover`, `crop`, `blur` | `scale-down`  |
| `gravity` | `centre` (`center`), `face`           | `centre`      |
| `format`  | `jpeg` (`jpg`), `png`, `webp`, `avif` | same as input |
| `quality` | 1-100                                 | by format     |

# orber

Turns photos and videos into abstract orb mood output: stills, looping clips, SVG and CSS.

The library under `src/` holds what the program decides and computes, verified with Verus:

- `cluster`, `shares`, `lab`, `matching`: the colours of a picture, and the same colours in other frames
- `color_track`, `keyframe_track`: how colours, places and weights move over time
- `animate`, `drift_laws`, `draws`, `orb`, `style`: the orbs, their motion, and their text formats
- `distance`, `glyph`, `field_laws`, `glyph_laws`: the signed distance fields of glyphs and silhouettes
- `gpu`, `shader`, `wgsl`: what the graphics processor is handed
- `cli`, `scene`, `variations`, `variation_run`, `batch`, `video`, `video_input`, `output_mode`:
  what a run of the program does, step by step
- `binary32`, `binary64`, `integers`, `rounding`, `scaling`, `fixed`, `text`: single and double
  precision arithmetic on bit patterns, and numbers as text

`app/` is the program around it: arguments, files, the outside programs `ffmpeg` and `ffprobe`, and
the renderer. Glyphs are drawn with `NotoSansSymbols2-Regular.ttf`, which is looked for in
`assets/fonts`, or in the folder that `ORBER_FONT_DIR` names.

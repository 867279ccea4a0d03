# rapidraw

The integer and text logic of a raw photo editor's processing core, verified
with Verus, and the floating-point pipeline around it.

- `src/` is the verified library.
  - `shader_probe`: reads `const` declarations, constructor arguments, float
    literals and function bodies out of WGSL source, with contracts over the
    source's bytes.
  - `raw_processing`: the decisions of a raw develop: which colour matrices to
    build the camera transform from, how the linear mode setting reads, and
    which of the decoder's steps run.
  - `color_space`, `white_balance`: the working space and slider constants as
    exact decimals, with the identities between them proved.
  - `text`, `chars`: byte search, UTF-8 slicing and character classes that the
    readers are built on.
- `tests/` runs the library on concrete inputs.
- `app/` holds the floating-point maths (colour matrices, white balance,
  Oklab, curves, grain, sharpening) and the calls into rawler (colour
  matrices, sensor size), on top of the library.

# boimp

Octahedral imposters: a model is drawn from many directions into the tiles of an atlas, and the
atlas stands for the model at a distance.

`src/` is the library, verified with Verus:

- `atlas`, `pack`: atlases of two words for each pixel, and cutting off the blank edges that all
  tiles share.
- `palette`, `indexed`: storing each different pixel once, and the place of every pixel.
- `settings`: the settings file of an asset.
- `archive`, `png`: the zip archives and PNG pictures that an asset is made of, through the `zip`
  and `image` crates.
- `asset_loader`: writing and loading assets.
- `math`, `oct_coords`, `render`: the data and flags of the material that shows an imposter.
- `bake`, `progress`, `subviews`, `visibility`, `queue`, `shader_defs`, `readback`: the decisions
  of a bake, from what a camera sees to the atlas that is read back.
- `laws`: what holds of several of these together, such as that an asset that was written shows
  every pixel when it is loaded.

`app/` holds the bevy plugins, systems and materials, and everything that reads or writes files or
computes with floating-point numbers. `tests/` runs the library.

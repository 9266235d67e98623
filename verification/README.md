# noisefilter

Grey-level image filters and noise, with the integer logic proved in Verus.

- `src/stats.rs`: windows of a pixel matrix, an in-place sort, the median (`parse_matrice`)
  and the mean (`parse_matrice_c`) of a window, and the sums behind the average grey level
  and the signal-to-noise ratio.
- `src/filters.rs`: the block median filter and the clustering (block mean) filter, painted
  into a grey image of the `image` crate, with the pixel-by-pixel description of their output.
- `src/noise.rs`: salt-and-pepper noise, split into the random draws and the decision.
- `src/raster.rs`: the `image` and pixel types and calls the library relies on, and the
  conversion of an image into a matrix of grey levels.
- `app/main.rs`: the command-line program: reading and writing files, prompts, and the
  floating-point filters (Gaussian filter, Gaussian noise, the logarithm of the SNR).

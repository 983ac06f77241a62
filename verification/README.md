# ambilight

Drives an APA102 LED strip mounted around a screen with the colours along the
border of the picture shown on it.

- `src/` is the verified library:
  - `frame`: RGB frames (`RgbImage`, `Rgb`), built from and written to
    interleaved bytes, and cut into blocks.
  - `imageprocessing`: `LedMap`, which reads the frame border in the order of
    the LEDs (by rows, by pixels, or through a scaled frame and a cache of
    perimeter slots); `imageprocessing::strip` orders border pixels along the
    strip.
  - `imageprocessing::blackborder`: finding the picture inside black bars
    (`bounding_box`), cropping to it (`trim`), and how often to look again
    (`refresh_bounds`).
- `app/` is the program around it: screen capture through VideoCore's
  dispmanx, the SPI device, the floating-point colour smoothing between
  frames, and the main loop.

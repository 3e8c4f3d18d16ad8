# light_mixer

A mixing desk for lights, verified with Verus. A device has fixtures, fixtures have
sources and sources have emitters. The desk has a fader for each source and each emitter,
shows the spectrum of the light that results, and tells the device of every change. Beside
it stands an analyzer that turns audio into the energies of bands of frequencies.

`src/` is the library. It does no input or output: what talks to a terminal, a device or
a microphone hands it plain values and gets plain values back.

- `rounding`, `root`, `binary32`: IEEE 754 binary32 arithmetic on bit patterns. Every
  operation is proved to be the exact result, rounded once.
- `text`: numbers in decimal, and padded columns.
- `message`, `source`: the part of the device protocol that concerns sources, and the
  commands and replies of a remote source.
- `mixer::exploration`, `mixer::catalog`: how a device is explored and its faders named.
- `mixer::keys`, `mixer::level`, `mixer::desk`: what key events do to the desk.
- `mixer::device`: how commands of the desk are taken together, and what the device is
  told.
- `mixer::spectrum`, `mixer::chart`, `mixer::screen`: what the desk looks like.
- `visualize`: the audio analyzer.

Proof functions named `law_..` state what holds of several functions together.

`app/` is the program around the library: terminal, device link and microphone.

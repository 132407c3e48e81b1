# enfuse

A mixer for two decks. Tracks are analysed (outline, tempo, first beat), played at
any speed, equalised, faded into each other and shown.

- `src/` is the library. Everything in it is verified with Verus: each function
  states what it returns, and the proof functions state what holds of several of
  them together.
- `app/` is the program around it: the window, the sound output, the files, the
  controller, the neural network and the Fourier transforms.
- `tests/` runs the library on concrete values.

## Layout of `src/`

| module | what it holds |
| --- | --- |
| `float` | single and double precision arithmetic on bit patterns, defined by rounding the exact result |
| `signal`, `sorting`, `window` | sums, extrema, sorting, the window over a frame |
| `analysis` | the coloured outline, the tempo from onsets, the spectrum on display |
| `beatnet` | features for the network, its activations, beats and tempo from them |
| `beatnet::dbn` | the states of a bar, their transitions, the most likely course |
| `audio` | time spans, filters, playback, the tap in the stream, the state of a deck |
| `mixer`, `animation`, `app`, `leg` | what an event changes and what it asks for |
| `ui` | knobs, outline, spectrum, wipe, disc and panels |
| `midi` | finding the controller |

## What is taken on trust

- `audio::monitor` trusts `ringbuf`: a ring holds as many patterns as it was made
  for, they come out in the order in which they went in, and only a full ring
  hands one back.
- `midi` trusts that `str::to_uppercase` depends on the string alone.

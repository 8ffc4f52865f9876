# auris_engine

The deciding half of the Auris Studio audio engine, verified with Verus.

`src/` holds every rule the engine applies that can be stated over whole numbers, each with a
contract: how device ranges become the rates a settings panel offers, how a capture block is cut
into pooled buffers, how the monitor ring decides to play, re-seat or wait, where count-in clicks
fall, how note events are ordered and bounded, how a mixer strip's mute slides, how the routing
is compensated for plugin latency, which events and notes a render segment delivers, what the
audio thread does with a command, and how an offline render is laid out block by block. The
laws the engine relies on (a block boundary never delivers an event twice, a render hands out
exactly its length, the reader never replays, the writer never overwrites what is unread) are
proof functions beside the code they speak of.

`app/` is the layer around it: enumerating devices through the audio backend, the error type
with its messages, and the few figures computed in floating point (meter fall, fade gain, the
monitor's rate ratio, render progress) before the library decides on them.

`tests/` runs the library on concrete values.

# cryptogpt

A tiny character-level, decoder-only GPT. The library (`src/`) holds the parts
that are proved with Verus: the character tokenizer and its round-trip laws,
the JSON Lines corpus reader, the model and training presets, the
train/validation split, the evaluation schedule, the sampling of next-token
training windows, and the context and top-k choices of text generation.

`app/` is the command-line program around it: the burn model and its
training and sampling loops, file I/O, argument parsing and the serialisable
copies of the configuration types.

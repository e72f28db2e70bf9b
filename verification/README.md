# voxtral_mini_realtime

A real-time spoken assistant, with its decisions verified by Verus.

`src/` is the verified library: turn taking, sentence shredding, repairs and
fillers, token streaming, ring buffers and chunking, the key/value cache, the
mixed-radix transform that compresses it, Q4_0 blocks, the plan of a decoder
layer, device choice, shader translation and benchmark plans. Every function states what it
computes; laws that span functions are public proof functions.

`app/` is the program around it: devices, files, models, threads, the terminal
interface, and all floating-point arithmetic. The library is generic over
sample and coefficient types, and takes the arithmetic as closures.

`tests/` runs the library on concrete values.

# soulseek_rs

The protocol library of a Soulseek client, with its logic verified by
Verus: what it decodes and encodes, what it decides about uploads, and how
it paces transfers.

- `src/utils/zlib`: a zlib decoder, with the text of each refusal, and two
  compressors (stored blocks, and LZ77 with the fixed Huffman codes): the
  second is proved to write one fixed block of the greedy hash-chain
  matches followed by the Adler-32, and both to round-trip through the
  decoder.
- `src/message`: messages as bytes with a read position; peer and server
  messages built and read, with what is read proved to be what was written.
- `src/client`: the upload queue and the rules for taking a request, the
  upload slots, and what is sent on closing; offers and transfers are kept
  one per token, as in a map by token.
- `src/utils/throttle`: a token bucket per direction, in exact integer
  arithmetic, proved to grant something to every waiting ask and never to
  hand out more than the limit per second.
- `app/`: the process-wide limiters with their clock and sleeps, handlers
  that report on channels, and the threads that stream uploads.

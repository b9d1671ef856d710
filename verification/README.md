# tcp_injection

Transmit buffering for a TCP connection on which an FPGA, acting as the network card, may send
packets of its own accord.

Whatever goes out on the connection has to end up in the host's transmit buffer, since only the
host retransmits. What the FPGA has sent must not be sent a second time. So the transmit buffer is
masked: each byte carries a flag that says whether it is still to be transmitted.

* `src/storage/`: the ring buffer (`ring_buffer.rs`) and the masked socket buffer on top of it
  (`masked_ring_buffer.rs`). Their contracts speak of the models in `ring_state.rs` and
  `masked_state.rs`; `masked_laws.rs` proves what holds of every masked buffer.
* `src/injection/`: the FPGA, the pipe that carries its writes, and the DMA memory they end up in,
  each as one step at a time. `trace.rs` proves what holds over any run of steps.
* `app/`: showing buffers with `{:?}`, and tracing them to the standard output.

Two facts about the standard library are taken on trust: what borrowing a range of a slice mutably
does (`src/storage/slice_ops.rs`), and what `String::push` does (`src/storage/debug_text.rs`).

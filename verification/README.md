# groupnet-consistency

Consistency for applications that ride on group gossip: per-writer write feeds
and read-your-writes barriers, applied watermarks, sequence floors, coherence
leases, and epoch-fenced hosted writes with snapshot handoff.

- `src/` is the library. Every item is verified with Verus. It performs no
  input or output and keeps no clock: it is given what the group shows, what
  time it is and what has arrived, and answers with what to publish and do.
- `app/` is the ordinary Rust around it: the tasks, polls, timeouts and streams
  that feed the library and carry out its answers.
- `tests/` runs the library on concrete values.

What the parts promise together stands as public proof functions next to the
functions they speak of. Some to start from:

- `session::reached_means_applied`: a barrier is met only once everything up to
  it has been applied or is covered by an applied gap.
- `lease::safety::no_valid_view_misses_a_completed_write`: a coherent write
  completes behind no reader that may still serve without it.
- `lease::safety::a_lapsed_reader_stays_out`: a reader that has lapsed serves
  nothing until its consumer has caught up under a live lease.
- `hosted::recovery::no_committed_write_is_lost`: a host that may serve has
  applied every write a majority committed before it.
- `hosted::delivery::the_stream_has_no_silent_hole`: over any run, a hosted
  lineage's writes ascend, and each follows its predecessor or a gap.
- `hosted::writes::admission_cuts_the_predecessor`: once this node serves, its
  bound subscriber is handed nothing from an older hostship.
- `hosted::handoff::stream::nothing_is_installed_unverified`: a snapshot is
  installed only after its offer and its terminator have passed every test.

The items that Verus takes on trust are the wrappers in `blob`, `span` and
`codec` and the text of an I/O error in `hosted::handoff::types`; each says
above it which outside function it stands for.

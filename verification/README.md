# ddp_sync

Gradient synchronisation for distributed data parallel training, verified with Verus.

- `src/types.rs`, `src/model.rs`: the values that the server works on, its state, and what each
  message does to it.
- `src/server.rs`: the gradient sync server. It gathers the gradients of each parameter, orders
  their reduction, and holds every device at the sync point until all of them have reached it.
- `src/channel.rs`: the release of a device over its `oneshot` channel.
- `src/laws.rs`: what holds of the server whatever its devices send.
- `src/rounds.rs`: the server together with the devices it serves. In every interleaving of their
  steps, each parameter is reduced once in a round over all its gradients, and nobody is released
  early. The round ends, unless the last device to register announces nothing when all the
  gradients are in already.
- `src/collective.rs`: a reduction, broken down into what each device is asked to do.
- `src/worker.rs`, `src/worker_laws.rs`: a training worker, epoch by epoch.
- `src/team.rs`: the workers together, and the barrier at which they meet. In every interleaving of
  their steps, the metrics of an epoch are read only once the main worker has validated it.
- `app/`: the backend calls, channels, threads and locks around the library.

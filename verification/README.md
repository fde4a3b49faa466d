# Ribs

Bounded queues whose behaviour is stated in contracts and proved with Verus.

- `unsync::Queue` is a ring buffer for one thread.
- `sync::Queue` is a block-based queue for any number of producers and consumers.
  `sync::mpmc::Queue` is the same queue with a single number as its capacity.
- `sync::QueueInner` is the block-based queue under one caller.

## What is proved

- Of `unsync::Queue` and `sync::QueueInner`: every call does to the contents what
  a first-in first-out queue does, and fails just where the queue is full or
  empty. No call panics.
- Of `sync::Queue`: a call comes to what replies to its accesses lead it to, where
  each reply is one that the atomic word or cell of the access can give. It is
  tried again as often as others interfere. A new queue has the words and slots
  of an empty one. A refused push hands its element back, and none of the accesses
  that led it there fills or empties a slot. While one thread uses the queue, and
  its words and cells reply as a memory does, the calls are those of a first-in
  first-out queue (`sync::single`).
- Of the accesses of the block-based queue, performed on a model of the memory:
  however pushes and pops take turns, no two of them hold the same slot, a push
  finds its slot empty, a pop finds its slot filled, and the k-th claimed slot is
  popped k-th (`sync::interleave`). What is popped was pushed by a push that has
  succeeded, a consumer's pops come in order and nothing comes twice
  (`sync::arrival`). So a consumer receives the values of each producer in the
  order in which they were sent (`sync::values`). None of the first pushes is
  refused while there are slots that were never used (`sync::starts`).
  This holds as long as the versions last and no more pushes count up an
  allocated cursor than its offset field can count (`sync::crowd`).

What is proved of the model holds of `sync::Queue` if its atomic words and cells,
accessed one after the other, reply as `Access::performed` says: a call whose
replies are those of an operation of the model comes to the same result
(`sync::calls`). That step is not proved. For the words sequential consistency
of their accesses provides it. The cells are exchanged with acquire and release
ordering only, or under a lock. For them it rests on what is proved of the
slots: one operation at a time holds a slot, and it hands the slot on through a
word. A push exchanges its cell before it counts the slot as filled, and a pop
exchanges it after it has read that count and before it counts the slot as
emptied.

Of the capacity it is proved that a queue holds between `lower + 1` and `upper`
elements when it is full, depending on how much of the block that is being read
is consumed.

## Layout

- `src/`: the library.
- `tests/`: its tests. `tests/interleavings.rs` runs callers in all orders in
  which they are interrupted a given number of times.
- `app/`: error texts, formatting, traits of the standard library, and programs
  with threads.

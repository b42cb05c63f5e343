# bitfrost

A cross-venue position keeper, written and proved in Verus. Two venues send fills, a
perpetual-futures venue (HL) and a binary prediction market (PM). The library turns them into one
ordered tape of canonical fills, and keeps net positions, realized PnL and fees from that tape.

```
a line of a feed
  |  stamped with the time of its arrival
  v
Ingester::fill_caught      dead letters, duplicates, alerts
  v
Sequencer                  one lane per venue, merged by (stamp, venue, sequence number)
  v
the tape                   drain_ready / flush
  v
PositionKeeper::apply      net quantity, realized PnL, fees
```

## Layout

| Module | What it holds |
| --- | --- |
| `fixed`, `text`, `decimal`, `rounding`, `binary64` | numbers and texts: fixed-point newtypes, decimal texts, half-even division, double-precision arithmetic on whole numbers |
| `instrument`, `boundary`, `canonical`, `position`, `stream`, `ingest` | the shared shapes, with a view of each |
| `wire`, `convert` | prices on the wire; from a venue's report to the canonical fill |
| `sequencer`, `tape` | the merger, and what holds of every tape |
| `ingester`, `arrivals` | the ingest task, and what holds of every run of it |
| `keeper`, `ledger` | cost-basis accounting, and what holds of the books |
| `fixtures`, `feeds`, `matched` | feeds with planted defects, made from a fixed seed, what becomes of their events, and what the matched feed comes to |

`app/` is the program around the library: it reads feeds from files, with serde, and writes sets
of feeds to a directory.

## What is proved

Contracts are stated over mathematical views. The proof functions whose names start with `law_`
state what holds of the library as a whole. Among them:

- The tape is the merge of what each venue pushed, and a function of nothing else. It counts up
  from one, its stamps never go back, and it only grows (`tape`).
- Every arrival is accepted, a duplicate or set aside, and is counted as just that. Venues do not
  disturb each other (`arrivals`).
- No money appears or vanishes, whatever is rounded. Positions do not depend on how the venues
  interleave, nor on the stamps. What a position costs, and its average, stay between the prices
  that were traded (`ledger`). Matched fills realize nothing once all positions are
  flat, and the matched feed ends flat (`matched`).
- Every drawn event of a feed has a canonical fill; the planted ones are refused, or contradict
  each other and raise an alert (`feeds`).
- A price that was sent as a double comes back as the tick it stands for (`wire`).

Floating-point numbers do not occur in the library. A price on the wire is held as its binary64
encoding, and the one conversion that the library makes of it, to ticks, is arithmetic on whole
numbers that rounds as IEEE 754 does.

The library trusts one contract that it does not prove: that `String::push` appends a character.

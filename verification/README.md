# fraud

Fraud scoring of card transactions by k-nearest-neighbour search (k = 5) over labelled
vectors of 14 components, written and proved in Verus.

A request is read from the bytes of its body, turned into a vector, searched for in an index,
and answered with one of six fixed responses: the number of fraudulent neighbours out of five.

## The library

| Module | Subject |
|---|---|
| `text`, `calendar`, `config` | digits and literal text, dates and timestamps, settings |
| `rounding`, `single`, `big_natural`, `decimal` | single-precision numbers as bit patterns: rounding, arithmetic, decimal numerals |
| `payload`, `vector` | a request field by field, its 14 components, quantization |
| `json`, `fast_parse` | the scanner, and a vector straight from the bytes of a request |
| `agreement`, `grammar`, `written`, `moving`, `closeness` | both ways from a request to its vector agree, a written request is read back, where it stands does not matter, and numbers next to each other give close vectors |
| `layout`, `writer` | the index file, and writing one |
| `topk`, `distance`, `exact` | the nearest so far, distances, search over every record |
| `block`, `clusters`, `recode`, `ivf`, `probing` | clustered search: blocks of eight records, the sections of the file, probing, repair |
| `budget`, `index` | how long a search may take; opening and searching an index |
| `http`, `scoring`, `report` | requests on a connection, answers, figures of benchmarks |

Statements about the library as a whole are public proof functions named `law_...`.

What is taken on trust stands in three places: `payload` (calendar fields of `chrono`),
`budget` (the monotonic clock) and `index` (`std::hint::black_box`).

## The program

`app/` is the program around the library: the server, the index builder, two benchmarks and
the comparison of two indexes.

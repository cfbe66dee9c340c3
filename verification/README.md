# qlog-analyzer

A library that analyzes batches of sequential qlog traces, each of them the trace
of one QUIC connection, and a program around it. The library also keeps track of
address validation tokens that are sent in `NEW_TOKEN` frames.

What the library does is stated in the contracts of its functions and proved with
Verus.

## Layout

| Module | Contents |
|---|---|
| `address_validation` | the tokens that wait, are in flight, or wait to be sent again |
| `double`, `arithmetic` | double precision numbers by their bit patterns, and the operations on them |
| `text`, `order`, `permutation` | strings, decimal numbers, stable sorting, what does not depend on order |
| `json`, `event`, `trace` | JSON documents, events, and the records of a trace |
| `metrics`, `accumulator` | the metrics of a connection, and how they accumulate |
| `trace_laws` | what holds of the metrics of every trace |
| `discovery` | which files are traces |
| `feature`, `stats`, `analysis` | features, distributions, scores, outliers, the representative connection |
| `notation`, `output`, `report` | how numbers are written, the tables, and the report |

`app/` holds the program: its arguments, files, the reading of traces with the
`qlog` crate, and the floating point operations themselves.

## Floating point

The library carries numbers by their bit patterns. It compares, sorts and rounds
them, and it decides which operations are carried out and in which order. Each
single operation is carried out by a function of the caller, and the contracts
hold for whatever arithmetic that function follows.

## Scores

The score of a connection by a feature is

```text
z = (transformed_value - median) / (1.4826 * MAD)
```

where the median and the median absolute deviation (MAD) are those of all
connections. Where the MAD is zero, values equal to the median get zero and all
others an infinity. The score by a group of features is the root mean square of
the scores by its features. A connection is an outlier if the score by a group, or
by a feature in it, reaches the threshold.

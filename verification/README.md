# gping

Ping, but with a graph. This is the model behind it, verified with Verus, and the program around it.

`src/` is the library:

- `samples`: what comes of pings, and sequences of round trip times
- `rounding`, `double`, `signed`: numbers in double precision and their arithmetic
- `smoothing`: the exponential moving average
- `stats`: the numbers above the graph
- `plot_data`: the samples of one host within a window of time, and how they are plotted
- `axis`: bounds and labels of the two axes
- `app`: all hosts on common axes, and the reaction to each event
- `host`, `command`, `args`: addresses and names of hosts, command lines, and what arguments have to be
- `clock`, `text`: instants and spans of time, and pieces of text

It computes with integers only: a number in double precision is held by its bits, and how it is
rounded is spelled out. Times are microseconds, and instants are milliseconds since the Unix epoch.
Public proof functions whose names begin with `law_` state what holds of the library as a whole.

`app/` is the program: arguments, threads, the terminal, and the pings themselves. Floating point
numbers occur there alone, where the command line and the chart need them.
